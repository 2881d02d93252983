use catbun::events::{ChannelPayload, Event, MembershipDelta};
use catbun::reconcile::{Engine, IngestOutcome, StreamItem};
use catbun::session::Token;
use catbun::store::{Availability, ChannelKind, Server, Store};

fn feed(engine: &mut Engine, ev: Event, now: u64) {
    match engine.ingest(StreamItem::Item(ev), now) {
        IngestOutcome::Continue(_) => {}
        IngestOutcome::Ended => panic!("stream should not end on an event"),
    }
}

#[test]
fn empty_store_answers_absent() {
    let s = Store::new();
    assert!(s.get_server(1).is_none());
    assert!(s.get_channel(1).is_none());
    assert_eq!(s.list_members_of(1), None);
    assert!(s.list_channels_of(1).is_empty());
}

#[test]
fn upsert_replaces_under_equal_keys() {
    let mut s = Store::new();
    s.upsert_server(Server { id: 3, name: Some("one".to_string()), avail: Availability::Available });
    s.upsert_server(Server { id: 3, name: Some("two".to_string()), avail: Availability::Available });
    assert_eq!(s.servers.len(), 1);
    assert_eq!(s.get_server(3).unwrap().name.as_deref(), Some("two"));
}

#[test]
fn delta_deduplicates_and_removes() {
    let mut e = Engine::new(1000);
    feed(&mut e, Event::ServerAvailable(catbun::events::ServerPayload { id: 1, name: "a".to_string() }), 0);
    feed(&mut e, Event::ThreadCreate(ChannelPayload {
        id: 11,
        server_id: 1,
        kind: ChannelKind::Thread { parent: 10 },
        name: "t".to_string(),
    }), 0);
    // a repeated addition within one delta registers the member once
    feed(&mut e, Event::ThreadMembersChange(MembershipDelta { thread_id: 11, added: vec![5, 5, 6], removed: vec![] }), 1);
    assert_eq!(e.store.list_members_of(11), Some(vec![5, 6]));
    // re-adding a present member is a no-op; removing an absent one too
    feed(&mut e, Event::ThreadMembersChange(MembershipDelta { thread_id: 11, added: vec![5], removed: vec![404] }), 2);
    assert_eq!(e.store.list_members_of(11), Some(vec![5, 6]));
    // removal drops only the link
    feed(&mut e, Event::ThreadMembersChange(MembershipDelta { thread_id: 11, added: vec![], removed: vec![5] }), 3);
    assert_eq!(e.store.list_members_of(11), Some(vec![6]));
}

#[test]
fn listing_follows_ownership() {
    let mut e = Engine::new(1000);
    feed(&mut e, Event::ServerAvailable(catbun::events::ServerPayload { id: 1, name: "a".to_string() }), 0);
    feed(&mut e, Event::ServerAvailable(catbun::events::ServerPayload { id: 2, name: "b".to_string() }), 0);
    for (cid, sid) in [(10u64, 1u64), (11, 2), (12, 1)] {
        feed(&mut e, Event::ChannelCreate(ChannelPayload {
            id: cid,
            server_id: sid,
            kind: ChannelKind::Ordinary,
            name: "c".to_string(),
        }), 1);
    }
    assert_eq!(e.store.list_channels_of(1), vec![10, 12]);
    assert_eq!(e.store.list_channels_of(2), vec![11]);
}

#[test]
fn token_is_kept_verbatim() {
    let t = Token::new("example-credential".to_string());
    assert_eq!(t.as_str(), "example-credential");
    let t2 = Token::new("aaa.bbb.ccc".to_string());
    assert_eq!(t2.as_str(), "aaa.bbb.ccc");
}
