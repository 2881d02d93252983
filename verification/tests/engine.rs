use catbun::events::{ChannelPayload, ChannelPatch, Event, MembershipDelta, ServerPatch, ServerPayload};
use catbun::reconcile::{Engine, FetchKind, FetchRequest, IngestOutcome, StreamItem};
use catbun::store::{Availability, ChannelKind};

fn feed(engine: &mut Engine, ev: Event, now: u64) -> Vec<FetchRequest> {
    match engine.ingest(StreamItem::Item(ev), now) {
        IngestOutcome::Continue(reqs) => reqs,
        IngestOutcome::Ended => panic!("stream should not end on an event"),
    }
}

fn server_available(id: u64, name: &str) -> Event {
    Event::ServerAvailable(ServerPayload { id, name: name.to_string() })
}

fn channel_create(id: u64, server_id: u64, name: &str) -> Event {
    Event::ChannelCreate(ChannelPayload { id, server_id, kind: ChannelKind::Ordinary, name: name.to_string() })
}

fn thread_create(id: u64, server_id: u64, parent: u64, name: &str) -> Event {
    Event::ThreadCreate(ChannelPayload { id, server_id, kind: ChannelKind::Thread { parent }, name: name.to_string() })
}

fn members_change(thread_id: u64, added: Vec<u64>, removed: Vec<u64>) -> Event {
    Event::ThreadMembersChange(MembershipDelta { thread_id, added, removed })
}

#[test]
fn scenario_lifecycle() {
    let mut e = Engine::new(1000);
    assert!(feed(&mut e, server_available(1, "alpha"), 0).is_empty());
    let s = e.store.get_server(1).expect("server should exist");
    assert_eq!(s.avail, Availability::Available);
    assert_eq!(s.name.as_deref(), Some("alpha"));

    assert!(feed(&mut e, channel_create(10, 1, "general"), 1).is_empty());
    assert!(feed(&mut e, thread_create(11, 1, 10, "topic"), 2).is_empty());
    assert!(feed(&mut e, members_change(11, vec![99], vec![]), 3).is_empty());
    assert_eq!(e.store.list_members_of(11), Some(vec![99]));

    // an outage keeps the owned data intact
    assert!(feed(&mut e, Event::ServerGone { id: 1, unreachable: true }, 4).is_empty());
    let s = e.store.get_server(1).expect("server still exists during an outage");
    assert_eq!(s.avail, Availability::Unavailable);
    let c = e.store.get_channel(10).expect("channel survives the outage");
    assert_eq!(c.name, "general");
    assert_eq!(e.store.list_members_of(11), Some(vec![99]));

    // a confirmed removal releases every owned channel and member
    assert!(feed(&mut e, Event::ServerGone { id: 1, unreachable: false }, 5).is_empty());
    assert!(e.store.get_channel(10).is_none());
    assert_eq!(e.store.list_members_of(11), None);
    let s = e.store.get_server(1).expect("the removed lifecycle is recorded");
    assert_eq!(s.avail, Availability::Removed);
    assert!(e.store.list_channels_of(1).is_empty());
}

#[test]
fn create_twice_is_idempotent() {
    let mut e = Engine::new(1000);
    feed(&mut e, server_available(1, "alpha"), 0);
    feed(&mut e, server_available(1, "alpha"), 0);
    assert_eq!(e.store.servers.len(), 1);
    assert_eq!(e.store.get_server(1).unwrap().name.as_deref(), Some("alpha"));

    feed(&mut e, thread_create(11, 1, 10, "topic"), 1);
    feed(&mut e, members_change(11, vec![7], vec![]), 2);
    // re-delivering the create keeps the delta-built member set
    feed(&mut e, thread_create(11, 1, 10, "topic"), 3);
    assert_eq!(e.store.channels.len(), 1);
    assert_eq!(e.store.list_members_of(11), Some(vec![7]));
}

#[test]
fn replace_missing_fields_preserved() {
    let mut e = Engine::new(1000);
    feed(&mut e, server_available(1, "alpha"), 0);
    feed(&mut e, Event::ServerUpdate(ServerPatch { id: 1, name: None }), 1);
    assert_eq!(e.store.get_server(1).unwrap().name.as_deref(), Some("alpha"));
    feed(&mut e, Event::ServerUpdate(ServerPatch { id: 1, name: Some("beta".to_string()) }), 2);
    assert_eq!(e.store.get_server(1).unwrap().name.as_deref(), Some("beta"));

    feed(&mut e, channel_create(10, 1, "general"), 3);
    feed(&mut e, Event::ChannelUpdate(ChannelPatch { id: 10, name: None }), 4);
    let c = e.store.get_channel(10).unwrap();
    assert_eq!(c.name, "general");
    assert_eq!(c.server_id, 1);
    feed(&mut e, Event::ChannelUpdate(ChannelPatch { id: 10, name: Some("lobby".to_string()) }), 5);
    assert_eq!(e.store.get_channel(10).unwrap().name, "lobby");
}

#[test]
fn confirmed_delete_cascades() {
    let mut e = Engine::new(1000);
    feed(&mut e, server_available(1, "alpha"), 0);
    feed(&mut e, server_available(2, "beta"), 0);
    feed(&mut e, channel_create(10, 1, "one"), 1);
    feed(&mut e, channel_create(20, 2, "two"), 1);
    e.store.upsert_member(catbun::store::Member { id: 7, server_id: 1, name: "kim".to_string() });
    e.store.upsert_member(catbun::store::Member { id: 8, server_id: 2, name: "ada".to_string() });

    feed(&mut e, Event::ServerGone { id: 1, unreachable: false }, 2);
    assert!(e.store.get_channel(10).is_none());
    assert!(e.store.get_channel(20).is_some());
    assert!(e.store.members.iter().all(|m| m.server_id != 1));
    assert_eq!(e.store.members.len(), 1);
    assert!(e.store.list_channels_of(1).is_empty());
    assert_eq!(e.store.list_channels_of(2), vec![20]);
}

#[test]
fn stale_delta_single_outstanding_fetch() {
    let mut e = Engine::new(10);
    feed(&mut e, server_available(1, "alpha"), 0);
    feed(&mut e, channel_create(10, 1, "general"), 0);
    feed(&mut e, thread_create(11, 1, 10, "topic"), 0);
    // snapshot is from time 0; time 100 is far beyond the window of 10
    let first = feed(&mut e, members_change(11, vec![5], vec![]), 100);
    assert_eq!(first, vec![FetchRequest { kind: FetchKind::Channel, id: 11 }]);
    // three further stale deltas must not issue a second concurrent fetch
    for _ in 0..3 {
        let more = feed(&mut e, members_change(11, vec![6], vec![]), 101);
        assert!(more.is_empty());
    }
    assert_eq!(e.channel_fetches.len(), 1);
    // the completion sees the "again" mark and re-issues exactly one follow-up
    let reissued = e.complete_channel_fetch(
        11,
        Some(ChannelPayload { id: 11, server_id: 1, kind: ChannelKind::Thread { parent: 10 }, name: "topic".to_string() }),
        vec![5, 6],
        102,
    );
    assert_eq!(reissued, vec![FetchRequest { kind: FetchKind::Channel, id: 11 }]);
    assert_eq!(e.store.list_members_of(11), Some(vec![5, 6]));
}

#[test]
fn delta_before_create_is_queued_and_replayed() {
    // order one: create, then delta
    let mut a = Engine::new(1000);
    feed(&mut a, server_available(1, "alpha"), 0);
    feed(&mut a, channel_create(10, 1, "general"), 0);
    feed(&mut a, thread_create(11, 1, 10, "topic"), 1);
    feed(&mut a, members_change(11, vec![42], vec![]), 1);
    assert_eq!(a.store.list_members_of(11), Some(vec![42]));

    // order two: the delta arrives first, is queued, and the thread fetched
    let mut b = Engine::new(1000);
    feed(&mut b, server_available(1, "alpha"), 0);
    feed(&mut b, channel_create(10, 1, "general"), 0);
    let reqs = feed(&mut b, members_change(11, vec![42], vec![]), 1);
    assert_eq!(reqs, vec![FetchRequest { kind: FetchKind::Channel, id: 11 }]);
    assert_eq!(b.store.list_members_of(11), None);
    feed(&mut b, thread_create(11, 1, 10, "topic"), 1);
    assert_eq!(b.store.list_members_of(11), Some(vec![42]));
}

#[test]
fn replace_before_create_upgrades() {
    let mut e = Engine::new(1000);
    let reqs = feed(&mut e, Event::ServerUpdate(ServerPatch { id: 9, name: Some("ghost".to_string()) }), 0);
    assert_eq!(reqs, vec![FetchRequest { kind: FetchKind::Server, id: 9 }]);
    let s = e.store.get_server(9).expect("upgraded to a conservative create");
    assert_eq!(s.avail, Availability::Unavailable);
    assert_eq!(s.name.as_deref(), Some("ghost"));
}

#[test]
fn unreadable_server_fetched_once() {
    let mut e = Engine::new(1000);
    let reqs = feed(&mut e, Event::ServerUnreadable(5), 0);
    assert_eq!(reqs, vec![FetchRequest { kind: FetchKind::Server, id: 5 }]);
    assert_eq!(e.store.get_server(5).unwrap().avail, Availability::Unavailable);
    // a second sighting is a plain availability transition: the single
    // outstanding fetch is neither duplicated nor re-marked
    let again = feed(&mut e, Event::ServerUnreadable(5), 1);
    assert!(again.is_empty());
    assert_eq!(e.server_fetches.len(), 1);
    // the fetched payload resolves the placeholder
    let reissued = e.complete_server_fetch(5, Some(ServerPayload { id: 5, name: "late".to_string() }));
    assert!(reissued.is_empty());
    let s = e.store.get_server(5).unwrap();
    assert_eq!(s.avail, Availability::Available);
    assert_eq!(s.name.as_deref(), Some("late"));
}

#[test]
fn fetch_not_found_is_a_delete() {
    let mut e = Engine::new(1000);
    let reqs = feed(&mut e, members_change(77, vec![1], vec![]), 0);
    assert_eq!(reqs, vec![FetchRequest { kind: FetchKind::Channel, id: 77 }]);
    assert_eq!(e.pending.len(), 1);
    let out = e.complete_channel_fetch(77, None, vec![], 1);
    assert!(out.is_empty());
    assert!(e.store.get_channel(77).is_none());
    assert!(e.pending.is_empty());
}

#[test]
fn deletion_cancels_fetch_result() {
    let mut e = Engine::new(10);
    feed(&mut e, server_available(1, "alpha"), 0);
    feed(&mut e, thread_create(11, 1, 10, "topic"), 0);
    feed(&mut e, members_change(11, vec![5], vec![]), 100);
    // the thread is deleted before the stale-repair fetch resolves
    feed(&mut e, Event::ThreadDelete(11), 101);
    let out = e.complete_channel_fetch(
        11,
        Some(ChannelPayload { id: 11, server_id: 1, kind: ChannelKind::Thread { parent: 10 }, name: "topic".to_string() }),
        vec![5],
        102,
    );
    assert!(out.is_empty());
    assert!(e.store.get_channel(11).is_none(), "a cancelled result must not revive the object");
}

#[test]
fn unsolicited_completion_ignored() {
    let mut e = Engine::new(1000);
    feed(&mut e, server_available(1, "alpha"), 0);
    let out = e.complete_server_fetch(1, None);
    assert!(out.is_empty());
    assert!(e.store.get_server(1).is_some(), "an unsolicited not-found must not delete anything");
}

#[test]
fn delete_of_absent_objects_is_noop() {
    let mut e = Engine::new(1000);
    assert!(feed(&mut e, Event::ChannelDelete(404), 0).is_empty());
    assert!(feed(&mut e, Event::ServerGone { id: 404, unreachable: false }, 0).is_empty());
    assert!(e.store.servers.is_empty());
    assert!(e.store.channels.is_empty());
}

#[test]
fn ignored_kinds_do_not_touch_the_store() {
    let mut e = Engine::new(1000);
    feed(&mut e, server_available(1, "alpha"), 0);
    for ev in [
        Event::MessageCreate(9),
        Event::MessageDelete(9),
        Event::ReactionChange(9),
        Event::TypingStart(9),
        Event::PresenceChange(9),
        Event::PinsChange(9),
        Event::StageInstanceChange(9),
        Event::InviteChange(9),
        Event::VoiceStateChange(9),
    ] {
        assert!(feed(&mut e, ev, 1).is_empty());
    }
    assert_eq!(e.store.servers.len(), 1);
    assert!(e.store.channels.is_empty());
}

#[test]
fn stream_errors_and_closure() {
    let mut e = Engine::new(1000);
    match e.ingest(StreamItem::ReceiveError, 0) {
        IngestOutcome::Continue(reqs) => assert!(reqs.is_empty()),
        IngestOutcome::Ended => panic!("a single failed receive must not end ingestion"),
    }
    match e.ingest(StreamItem::Closed, 1) {
        IngestOutcome::Ended => {}
        IngestOutcome::Continue(_) => panic!("closure must surface the lifecycle signal"),
    }
}

#[test]
fn removed_identifier_rejoins_cleanly() {
    let mut e = Engine::new(1000);
    feed(&mut e, server_available(1, "alpha"), 0);
    feed(&mut e, Event::ServerGone { id: 1, unreachable: false }, 1);
    assert_eq!(e.store.get_server(1).unwrap().avail, Availability::Removed);
    // an outage notice for a removed identity stays ignored: removal is terminal
    feed(&mut e, Event::ServerGone { id: 1, unreachable: true }, 2);
    assert_eq!(e.store.get_server(1).unwrap().avail, Availability::Removed);
    // only a brand-new full payload begins a new lifecycle
    feed(&mut e, server_available(1, "alpha reborn"), 3);
    let s = e.store.get_server(1).unwrap();
    assert_eq!(s.avail, Availability::Available);
    assert_eq!(s.name.as_deref(), Some("alpha reborn"));
}
