//! The reconciler: applies classified operations to the object graph in
//! strict arrival order, repairs semantic inconsistencies conservatively,
//! and decides which repair fetches to request from the outbound
//! collaborator — at most one in flight per object.

use vstd::prelude::*;
use crate::keyed::{Keyed, has_rec, rec_at, unique_keys, upsert, remove_rec, lemma_idx_unique, lemma_idx_props, lemma_upsert, lemma_upsert_absorb, lemma_remove, lemma_take_all};
use crate::store::{Availability, ChannelKind, Server, Channel, ChannelModel, Member, Store, store_wf, set_avail, channels_not_of, members_not_of, lemma_channels_not_of, add_absent, delta_members, with_name, with_payload, with_members, merge_opt, merge_str, lemma_add_absent, contains_id};
use crate::events::{ServerPayload, ServerPatch, ChannelPayload, ChannelPatch, MembershipDelta, DeltaModel, Action};

verus! {

/// The object kinds the reconciler repairs by out-of-band fetch.
#[derive(PartialEq, Eq, Structural, Clone, Copy, Debug)]
pub enum FetchKind {
    Server,
    Channel,
}

/// A typed repair-fetch request surfaced to the outbound collaborator.
#[derive(PartialEq, Eq, Structural, Clone, Copy, Debug)]
pub struct FetchRequest {
    pub kind: FetchKind,
    pub id: u64,
}

/// One outstanding repair fetch: `again` is the "refresh requested again"
/// mark set when a further trigger arrives while the fetch is in flight.
#[derive(PartialEq, Eq, Structural, Clone, Copy, Debug)]
pub struct SlotRec {
    pub id: u64,
    pub again: bool,
}

impl Keyed for SlotRec {
    open spec fn key(self) -> u64 {
        self.id
    }
}

/// The mathematical image of the whole engine state.
pub struct EngineModel {
    pub servers: Seq<Server>,
    pub channels: Seq<ChannelModel>,
    pub members: Seq<Member>,
    pub server_fetches: Seq<SlotRec>,
    pub channel_fetches: Seq<SlotRec>,
    pub pending: Seq<DeltaModel>,
    pub window: u64,
}

/// The models of a queue of membership deltas.
pub open spec fn pd_models(s: Seq<MembershipDelta>) -> Seq<DeltaModel> {
    s.map_values(|d: MembershipDelta| d@)
}

pub proof fn lemma_pd_models_push(s: Seq<MembershipDelta>, d: MembershipDelta)
    ensures
        pd_models(s.push(d)) == pd_models(s).push(d@),
{
    assert(pd_models(s.push(d)) =~= pd_models(s).push(d@));
}

/// The placeholder for a server referenced before its payload was seen:
/// unnamed and unavailable until the repair fetch resolves it.
pub open spec fn placeholder(id: u64) -> Server {
    Server { id: id, name: None, avail: Availability::Unavailable }
}

/// The server is present and its lifecycle is not over.
pub open spec fn server_live(servers: Seq<Server>, id: u64) -> bool {
    has_rec(servers, id) && rec_at(servers, id).avail != Availability::Removed
}

/// The servers after a placeholder is established wherever `id` is not live.
pub open spec fn ensure_live(servers: Seq<Server>, id: u64) -> Seq<Server> {
    if server_live(servers, id) {
        servers
    } else {
        upsert(servers, placeholder(id))
    }
}

/// Record a repair trigger for `id`: a fresh slot when none is outstanding,
/// else the "refresh requested again" mark on the outstanding one.
pub open spec fn slot_request(s: Seq<SlotRec>, id: u64) -> Seq<SlotRec> {
    if has_rec(s, id) {
        upsert(s, SlotRec { id: id, again: true })
    } else {
        s.push(SlotRec { id: id, again: false })
    }
}

/// A new request actually goes out only when no fetch is outstanding.
pub open spec fn slot_issues(s: Seq<SlotRec>, id: u64) -> bool {
    !has_rec(s, id)
}

/// The queued deltas that wait for thread `tid`, in queue order.
pub open spec fn pending_of(s: Seq<DeltaModel>, tid: u64) -> Seq<DeltaModel>
    decreases s.len(),
{
    if s.len() == 0 {
        Seq::empty()
    } else {
        let pre = pending_of(s.drop_last(), tid);
        if s.last().thread_id == tid {
            pre.push(s.last())
        } else {
            pre
        }
    }
}

/// The queue with every delta for thread `tid` taken out.
pub open spec fn pending_not_of(s: Seq<DeltaModel>, tid: u64) -> Seq<DeltaModel>
    decreases s.len(),
{
    if s.len() == 0 {
        Seq::empty()
    } else {
        let pre = pending_not_of(s.drop_last(), tid);
        if s.last().thread_id == tid {
            pre
        } else {
            pre.push(s.last())
        }
    }
}

/// Some delta in the queue waits for thread `tid`.
pub open spec fn has_pending(s: Seq<DeltaModel>, tid: u64) -> bool {
    exists|i: int| 0 <= i < s.len() && s[i].thread_id == tid
}

/// Queued deltas replayed over a member set, oldest first.
pub open spec fn replay(mem: Seq<u64>, ds: Seq<DeltaModel>) -> Seq<u64>
    decreases ds.len(),
{
    if ds.len() == 0 {
        mem
    } else {
        delta_members(replay(mem, ds.drop_last()), ds.last().added, ds.last().removed)
    }
}

/// An identifier list with duplicates dropped, first occurrences kept.
pub open spec fn dedup(s: Seq<u64>) -> Seq<u64> {
    add_absent(Seq::empty(), s)
}

/// Taking a delta out of the queue leaves the threads it waits for within
/// those the whole queue waits for.
pub proof fn lemma_pending_not_of(s: Seq<DeltaModel>, tid: u64)
    ensures
        forall|x: DeltaModel| #[trigger] pending_not_of(s, tid).contains(x) ==> s.contains(x) && x.thread_id != tid,
    decreases s.len(),
{
    let out = pending_not_of(s, tid);
    if s.len() == 0 {
    } else {
        let pre = s.drop_last();
        lemma_pending_not_of(pre, tid);
        assert forall|x: DeltaModel| #[trigger] out.contains(x) implies s.contains(x) && x.thread_id != tid by {
            let prev = pending_not_of(pre, tid);
            if s.last().thread_id == tid {
                assert(out == prev);
                assert(prev.contains(x));
                assert(pre.contains(x) && x.thread_id != tid);
                let w = choose|w: int| 0 <= w < pre.len() && pre[w] == x;
                assert(s[w] == x);
                assert(s.contains(x));
            } else {
                assert(out == prev.push(s.last()));
                if x == s.last() {
                    assert(s[s.len() - 1] == x);
                    assert(s.contains(x));
                } else {
                    let w = choose|w: int| 0 <= w < out.len() && out[w] == x;
                    assert(w != out.len() - 1);
                    assert(prev[w] == x);
                    assert(prev.contains(x));
                    assert(pre.contains(x) && x.thread_id != tid);
                    let w2 = choose|w2: int| 0 <= w2 < pre.len() && pre[w2] == x;
                    assert(s[w2] == x);
                    assert(s.contains(x));
                }
            }
        }
    }
}

/// Queued deltas reference only threads absent from the store: they are
/// drained the moment their thread exists.
pub open spec fn pending_ok(channels: Seq<ChannelModel>, pending: Seq<DeltaModel>) -> bool {
    forall|i: int| 0 <= i < pending.len() ==> !has_rec(channels, #[trigger] pending[i].thread_id)
}

/// As `pending_ok`, except possibly for thread `tid` itself.
pub open spec fn pending_ok_except(channels: Seq<ChannelModel>, pending: Seq<DeltaModel>, tid: u64) -> bool {
    forall|i: int| 0 <= i < pending.len() && #[trigger] pending[i].thread_id != tid ==> !has_rec(channels, pending[i].thread_id)
}

/// Well-formedness of the whole engine: a well-formed object graph, at most
/// one outstanding fetch per object, and queued deltas only for absent
/// threads.
pub open spec fn wf_model(m: EngineModel) -> bool {
    &&& store_wf(m.servers, m.channels, m.members)
    &&& unique_keys(m.server_fetches)
    &&& unique_keys(m.channel_fetches)
    &&& pending_ok(m.channels, m.pending)
}

/// A full server payload establishes (or refreshes) the record as
/// available: a brand-new lifecycle may reuse a removed identifier.
pub open spec fn step_create_server(m: EngineModel, p: ServerPayload) -> EngineModel {
    EngineModel {
        servers: upsert(m.servers, Server { id: p.id, name: Some(p.name), avail: Availability::Available }),
        ..m
    }
}

/// A partial server update merges into a live record. A replace for a
/// server never created (or already removed) is repaired conservatively:
/// a create from the fields present, unavailable until a full fetch lands.
pub open spec fn step_replace_server(m: EngineModel, p: ServerPatch) -> (EngineModel, Seq<FetchRequest>) {
    if server_live(m.servers, p.id) {
        let r = rec_at(m.servers, p.id);
        (EngineModel {
            servers: upsert(m.servers, Server { id: p.id, name: merge_opt(p.name, r.name), avail: r.avail }),
            ..m
        }, Seq::empty())
    } else {
        (EngineModel {
            servers: upsert(m.servers, Server { id: p.id, name: p.name, avail: Availability::Unavailable }),
            server_fetches: slot_request(m.server_fetches, p.id),
            ..m
        }, if slot_issues(m.server_fetches, p.id) {
            seq![FetchRequest { kind: FetchKind::Server, id: p.id }]
        } else {
            Seq::empty()
        })
    }
}

/// An outage retains owned data; on a removed record it is ignored
/// (removal is terminal); on an unknown identifier a placeholder is
/// established and a full fetch requested.
pub open spec fn step_outage_server(m: EngineModel, id: u64) -> (EngineModel, Seq<FetchRequest>) {
    if has_rec(m.servers, id) {
        if rec_at(m.servers, id).avail == Availability::Removed {
            (m, Seq::empty())
        } else {
            (EngineModel { servers: set_avail(m.servers, id, Availability::Unavailable), ..m }, Seq::empty())
        }
    } else {
        (EngineModel {
            servers: upsert(m.servers, placeholder(id)),
            server_fetches: slot_request(m.server_fetches, id),
            ..m
        }, if slot_issues(m.server_fetches, id) {
            seq![FetchRequest { kind: FetchKind::Server, id: id }]
        } else {
            Seq::empty()
        })
    }
}

/// A confirmed delete: the record becomes removed and every owned channel
/// and member is released.
pub open spec fn step_delete_server(m: EngineModel, id: u64) -> EngineModel {
    EngineModel {
        servers: set_avail(m.servers, id, Availability::Removed),
        channels: channels_not_of(m.channels, id),
        members: members_not_of(m.members, id),
        ..m
    }
}

/// The record a channel-create installs: a fresh channel starts with an
/// empty member set snapshotted now; re-creating an existing channel keeps
/// its member set and snapshot (lifecycle payloads carry no membership).
pub open spec fn create_base(channels: Seq<ChannelModel>, p: ChannelPayload, now: u64) -> ChannelModel {
    if has_rec(channels, p.id) {
        with_payload(rec_at(channels, p.id), p.server_id, p.kind, p.name)
    } else {
        ChannelModel {
            id: p.id,
            server_id: p.server_id,
            kind: p.kind,
            name: p.name,
            members: Seq::empty(),
            snapshot_time: now,
        }
    }
}

/// A channel (or thread) create. An absent owning server is repaired by a
/// placeholder plus fetch; queued membership deltas for the channel are
/// replayed in arrival order; a thread whose parent is absent triggers a
/// parent fetch.
pub open spec fn step_create_channel(m: EngineModel, p: ChannelPayload, now: u64) -> (EngineModel, Seq<FetchRequest>) {
    let base = create_base(m.channels, p, now);
    let installed = with_members(base, replay(base.members, pending_of(m.pending, p.id)));
    let iss_server = if !server_live(m.servers, p.server_id) && slot_issues(m.server_fetches, p.server_id) {
        seq![FetchRequest { kind: FetchKind::Server, id: p.server_id }]
    } else {
        Seq::empty()
    };
    let parent_gap = match p.kind {
        ChannelKind::Thread { parent } => if has_rec(m.channels, parent) {
            None
        } else {
            Some(parent)
        },
        ChannelKind::Ordinary => None,
    };
    let iss_parent = match parent_gap {
        Some(par) => if slot_issues(m.channel_fetches, par) {
            seq![FetchRequest { kind: FetchKind::Channel, id: par }]
        } else {
            Seq::empty()
        },
        None => Seq::empty(),
    };
    (EngineModel {
        servers: ensure_live(m.servers, p.server_id),
        channels: upsert(m.channels, installed),
        members: m.members,
        server_fetches: if server_live(m.servers, p.server_id) {
            m.server_fetches
        } else {
            slot_request(m.server_fetches, p.server_id)
        },
        channel_fetches: match parent_gap {
            Some(par) => slot_request(m.channel_fetches, par),
            None => m.channel_fetches,
        },
        pending: pending_not_of(m.pending, p.id),
        window: m.window,
    }, iss_server + iss_parent)
}

/// A partial channel update merges into an existing record; a replace for
/// a channel never created is repaired by fetching the channel whole.
pub open spec fn step_replace_channel(m: EngineModel, p: ChannelPatch) -> (EngineModel, Seq<FetchRequest>) {
    if has_rec(m.channels, p.id) {
        let ex = rec_at(m.channels, p.id);
        (EngineModel {
            channels: upsert(m.channels, with_name(ex, merge_str(p.name, ex.name))),
            ..m
        }, Seq::empty())
    } else {
        (EngineModel {
            channel_fetches: slot_request(m.channel_fetches, p.id),
            ..m
        }, if slot_issues(m.channel_fetches, p.id) {
            seq![FetchRequest { kind: FetchKind::Channel, id: p.id }]
        } else {
            Seq::empty()
        })
    }
}

/// A channel delete: the record goes, and so do deltas still queued for it,
/// so that a later lifecycle reusing the identifier starts clean.
pub open spec fn step_delete_channel(m: EngineModel, id: u64) -> EngineModel {
    EngineModel {
        channels: remove_rec(m.channels, id),
        pending: pending_not_of(m.pending, id),
        ..m
    }
}

/// An advisory membership delta. On a present thread it is applied
/// optimistically; a snapshot older than the staleness window additionally
/// triggers a full membership refresh. For an absent thread the delta is
/// queued and the thread itself fetched. Either way at most one fetch per
/// object is outstanding.
pub open spec fn step_membership(m: EngineModel, d: DeltaModel, now: u64) -> (EngineModel, Seq<FetchRequest>) {
    if has_rec(m.channels, d.thread_id) {
        let ex = rec_at(m.channels, d.thread_id);
        let applied = upsert(m.channels, with_members(ex, delta_members(ex.members, d.added, d.removed)));
        if ex.snapshot_time + m.window < now {
            (EngineModel {
                channels: applied,
                channel_fetches: slot_request(m.channel_fetches, d.thread_id),
                ..m
            }, if slot_issues(m.channel_fetches, d.thread_id) {
                seq![FetchRequest { kind: FetchKind::Channel, id: d.thread_id }]
            } else {
                Seq::empty()
            })
        } else {
            (EngineModel { channels: applied, ..m }, Seq::empty())
        }
    } else {
        (EngineModel {
            pending: m.pending.push(d),
            channel_fetches: slot_request(m.channel_fetches, d.thread_id),
            ..m
        }, if slot_issues(m.channel_fetches, d.thread_id) {
            seq![FetchRequest { kind: FetchKind::Channel, id: d.thread_id }]
        } else {
            Seq::empty()
        })
    }
}

/// One reconciliation step: the classified operation applied to the engine
/// state, and the repair fetches newly issued by it.
pub open spec fn step(m: EngineModel, a: Action, now: u64) -> (EngineModel, Seq<FetchRequest>) {
    match a {
        Action::CreateServer(p) => (step_create_server(m, p), Seq::empty()),
        Action::ReplaceServer(p) => step_replace_server(m, p),
        Action::OutageServer(id) => step_outage_server(m, id),
        Action::DeleteServer(id) => (step_delete_server(m, id), Seq::empty()),
        Action::CreateChannel(p) => step_create_channel(m, p, now),
        Action::ReplaceChannel(p) => step_replace_channel(m, p),
        Action::DeleteChannel(id) => (step_delete_channel(m, id), Seq::empty()),
        Action::ApplyMembershipDelta(d) => step_membership(m, d@, now),
        Action::Ignored => (m, Seq::empty()),
    }
}

/// Linear search for an outstanding fetch slot.
fn find_slot(v: &Vec<SlotRec>, id: u64) -> (r: Option<usize>)
    ensures
        match r {
            Some(i) => i < v@.len() && v@[i as int].id == id,
            None => !has_rec(v@, id),
        },
{
    let mut i: usize = 0;
    while i < v.len()
        invariant
            i <= v@.len(),
            forall|j: int| 0 <= j < i ==> v@[j].id != id,
        decreases v@.len() - i,
    {
        if v[i].id == id {
            return Some(i);
        }
        i = i + 1;
    }
    None
}

/// Record a repair trigger: a fresh slot, or the "again" mark on the
/// outstanding one. Returns whether a new request goes out.
fn request_slot(v: &mut Vec<SlotRec>, id: u64) -> (issued: bool)
    requires
        unique_keys(old(v)@),
    ensures
        final(v)@ == slot_request(old(v)@, id),
        issued == slot_issues(old(v)@, id),
        unique_keys(final(v)@),
{
    proof {
        if has_rec(v@, id) {
            lemma_upsert(v@, SlotRec { id: id, again: true });
        } else {
            lemma_upsert(v@, SlotRec { id: id, again: false });
        }
    }
    match find_slot(v, id) {
        Some(i) => {
            proof {
                lemma_idx_unique(v@, id, i as int);
            }
            v[i].again = true;
            proof {
                assert(v@ == upsert(old(v)@, SlotRec { id: id, again: true }));
            }
            false
        }
        None => {
            v.push(SlotRec { id: id, again: false });
            proof {
                assert(v@ == upsert(old(v)@, SlotRec { id: id, again: false }));
            }
            true
        }
    }
}

/// Does any queued delta wait for thread `tid`?
fn pending_waits(v: &Vec<MembershipDelta>, tid: u64) -> (b: bool)
    ensures
        b == has_pending(pd_models(v@), tid),
{
    let mut i: usize = 0;
    while i < v.len()
        invariant
            i <= v@.len(),
            forall|j: int| 0 <= j < i ==> pd_models(v@)[j].thread_id != tid,
        decreases v@.len() - i,
    {
        if v[i].thread_id == tid {
            assert(pd_models(v@)[i as int].thread_id == tid);
            return true;
        }
        i = i + 1;
    }
    false
}

/// Split the queue into the deltas that do not wait for `tid` and, in
/// arrival order, those that do.
fn split_pending(v: Vec<MembershipDelta>, tid: u64) -> (r: (Vec<MembershipDelta>, Vec<MembershipDelta>))
    ensures
        pd_models(r.0@) == pending_not_of(pd_models(v@), tid),
        pd_models(r.1@) == pending_of(pd_models(v@), tid),
{
    let mut work = v;
    let ghost worig: Seq<MembershipDelta> = work@;
    let ghost porig: Seq<DeltaModel> = pd_models(worig);
    let mut keep: Vec<MembershipDelta> = Vec::new();
    let mut coll: Vec<MembershipDelta> = Vec::new();
    let n = work.len();
    let mut j: usize = 0;
    while j < n
        invariant
            n == worig.len(),
            j <= n,
            porig == pd_models(worig),
            work@ == worig.skip(j as int),
            pd_models(keep@) == pending_not_of(porig.take(j as int), tid),
            pd_models(coll@) == pending_of(porig.take(j as int), tid),
        decreases n - j,
    {
        proof {
            assert(porig.len() == worig.len());
            assert(work@[0] == worig[j as int]);
            assert(worig.skip(j as int).remove(0) =~= worig.skip(j as int + 1));
            assert(porig.take(j as int + 1).drop_last() =~= porig.take(j as int));
            assert(porig.take(j as int + 1).last() == porig[j as int]);
        }
        let d = work.remove(0);
        proof {
            assert(d@ == porig[j as int]);
        }
        if d.thread_id == tid {
            proof {
                lemma_pd_models_push(coll@, d);
            }
            coll.push(d);
        } else {
            proof {
                lemma_pd_models_push(keep@, d);
            }
            keep.push(d);
        }
        j = j + 1;
    }
    proof {
        lemma_take_all(porig);
    }
    (keep, coll)
}

/// The event-ingestion and cache-reconciliation engine: the object graph,
/// the outstanding repair fetches, the queued membership deltas, and the
/// staleness window for membership snapshots.
pub struct Engine {
    pub store: Store,
    pub server_fetches: Vec<SlotRec>,
    pub channel_fetches: Vec<SlotRec>,
    pub pending: Vec<MembershipDelta>,
    pub window: u64,
}

impl Engine {
    /// The mathematical image of the engine state.
    pub open spec fn model(self) -> EngineModel {
        EngineModel {
            servers: self.store.servers@,
            channels: self.store.chans(),
            members: self.store.members@,
            server_fetches: self.server_fetches@,
            channel_fetches: self.channel_fetches@,
            pending: pd_models(self.pending@),
            window: self.window,
        }
    }

    pub open spec fn wf(self) -> bool {
        wf_model(self.model())
    }

    /// A fresh engine over an empty mirror, with the given staleness
    /// window for thread-membership snapshots.
    pub fn new(window: u64) -> (e: Engine)
        ensures
            e.wf(),
            e.model().servers == Seq::<Server>::empty(),
            e.model().channels == Seq::<ChannelModel>::empty(),
            e.model().members == Seq::<Member>::empty(),
            e.model().server_fetches == Seq::<SlotRec>::empty(),
            e.model().channel_fetches == Seq::<SlotRec>::empty(),
            e.model().pending == Seq::<DeltaModel>::empty(),
            e.model().window == window,
    {
        let e = Engine {
            store: Store::new(),
            server_fetches: Vec::new(),
            channel_fetches: Vec::new(),
            pending: Vec::new(),
            window: window,
        };
        proof {
            assert(pd_models(e.pending@) =~= Seq::<DeltaModel>::empty());
        }
        e
    }

    /// Establish a placeholder and request the full payload wherever the
    /// server is not live. Returns whether a new fetch goes out.
    fn ensure_server_live(&mut self, sid: u64) -> (issued: bool)
        requires
            old(self).wf(),
        ensures
            final(self).model() == (EngineModel {
                servers: ensure_live(old(self).model().servers, sid),
                server_fetches: if server_live(old(self).model().servers, sid) {
                    old(self).model().server_fetches
                } else {
                    slot_request(old(self).model().server_fetches, sid)
                },
                ..old(self).model()
            }),
            issued == (!server_live(old(self).model().servers, sid) && slot_issues(old(self).model().server_fetches, sid)),
            final(self).wf(),
            server_live(final(self).model().servers, sid),
    {
        let live = match self.store.get_server(sid) {
            Some(s) => s.avail != Availability::Removed,
            None => false,
        };
        if live {
            proof {
                lemma_idx_props(self.servers_view(), sid);
            }
            false
        } else {
            self.store.upsert_server(Server { id: sid, name: None, avail: Availability::Unavailable });
            let issued = request_slot(&mut self.server_fetches, sid);
            proof {
                lemma_upsert(old(self).model().servers, placeholder(sid));
            }
            issued
        }
    }

    /// The servers as the specs see them.
    pub open spec fn servers_view(self) -> Seq<Server> {
        self.store.servers@
    }

    /// Drain the deltas queued for thread `tid` and replay them, oldest
    /// first, onto its (present) record.
    fn drain_replay(&mut self, tid: u64)
        requires
            store_wf(old(self).model().servers, old(self).model().channels, old(self).model().members),
            unique_keys(old(self).model().server_fetches),
            unique_keys(old(self).model().channel_fetches),
            has_rec(old(self).model().channels, tid),
            pending_ok_except(old(self).model().channels, old(self).model().pending, tid),
        ensures
            final(self).model() == (EngineModel {
                channels: upsert(old(self).model().channels,
                    with_members(rec_at(old(self).model().channels, tid),
                        replay(rec_at(old(self).model().channels, tid).members,
                            pending_of(old(self).model().pending, tid)))),
                pending: pending_not_of(old(self).model().pending, tid),
                ..old(self).model()
            }),
            final(self).wf(),
    {
        let ghost m0 = old(self).model();
        let ghost base = rec_at(m0.channels, tid);
        let ghost pend = pending_of(m0.pending, tid);
        proof {
            lemma_idx_props(m0.channels, tid);
        }
        let mut work: Vec<MembershipDelta> = Vec::new();
        core::mem::swap(&mut work, &mut self.pending);
        let (keep, coll) = split_pending(work, tid);
        self.pending = keep;
        let cn = coll.len();
        let mut k: usize = 0;
        proof {
            assert(with_members(base, replay(base.members, pend.take(0))) == base);
            assert(upsert(m0.channels, base) =~= m0.channels.update(crate::keyed::idx_of(m0.channels, tid), base)) by {
                lemma_idx_props(m0.channels, tid);
            }
            assert(m0.channels.update(crate::keyed::idx_of(m0.channels, tid), base) =~= m0.channels);
        }
        while k < cn
            invariant
                cn == coll@.len(),
                k <= cn,
                pd_models(coll@) == pend,
                base == rec_at(m0.channels, tid),
                base.id == tid,
                m0.channels == old(self).model().channels,
                store_wf(m0.servers, m0.channels, m0.members),
                self.store.servers@ == m0.servers,
                self.store.members@ == m0.members,
                pd_models(self.pending@) == pending_not_of(m0.pending, tid),
                self.server_fetches@ == m0.server_fetches,
                self.channel_fetches@ == m0.channel_fetches,
                self.window == m0.window,
                self.store.chans() == upsert(m0.channels, with_members(base, replay(base.members, pend.take(k as int)))),
                store_wf(self.store.servers@, self.store.chans(), self.store.members@),
            decreases cn - k,
        {
            let ghost cur = self.store.chans();
            let ghost prefix = replay(base.members, pend.take(k as int));
            proof {
                lemma_upsert(m0.channels, with_members(base, prefix));
                assert(has_rec(cur, tid));
                assert(rec_at(cur, tid) == with_members(base, prefix));
            }
            let d = &coll[k];
            proof {
                assert(d@ == pend[k as int]);
            }
            self.store.apply_thread_membership_delta(tid, &d.added, &d.removed);
            proof {
                let nextm = delta_members(prefix, pend[k as int].added, pend[k as int].removed);
                assert(self.store.chans() == upsert(cur, with_members(with_members(base, prefix), nextm)));
                assert(with_members(with_members(base, prefix), nextm) == with_members(base, nextm));
                lemma_upsert_absorb(m0.channels, with_members(base, prefix), with_members(base, nextm));
                assert(pend.take(k as int + 1).drop_last() =~= pend.take(k as int));
                assert(pend.take(k as int + 1).last() == pend[k as int]);
                assert(replay(base.members, pend.take(k as int + 1)) == nextm);
            }
            k = k + 1;
        }
        proof {
            lemma_take_all(pend);
            let mfin = final(self).model();
            assert(mfin.pending == pending_not_of(m0.pending, tid));
            lemma_pending_not_of(m0.pending, tid);
            lemma_upsert(m0.channels, with_members(base, replay(base.members, pend)));
            assert forall|i: int| 0 <= i < mfin.pending.len() implies !has_rec(mfin.channels, #[trigger] mfin.pending[i].thread_id) by {
                assert(mfin.pending.contains(mfin.pending[i]));
                assert(m0.pending.contains(mfin.pending[i]) && mfin.pending[i].thread_id != tid);
                let w = choose|w: int| 0 <= w < m0.pending.len() && m0.pending[w] == mfin.pending[i];
                assert(!has_rec(m0.channels, m0.pending[w].thread_id));
            }
        }
    }
}

/// No repair requests.
fn no_requests() -> (r: Vec<FetchRequest>)
    ensures
        r@ == Seq::<FetchRequest>::empty(),
{
    let r: Vec<FetchRequest> = Vec::new();
    proof {
        assert(r@ =~= Seq::<FetchRequest>::empty());
    }
    r
}

/// One repair request if `iss`, else none.
fn requests_if(iss: bool, kind: FetchKind, id: u64) -> (r: Vec<FetchRequest>)
    ensures
        r@ == if iss {
            seq![FetchRequest { kind: kind, id: id }]
        } else {
            Seq::<FetchRequest>::empty()
        },
{
    let mut r: Vec<FetchRequest> = Vec::new();
    if iss {
        r.push(FetchRequest { kind: kind, id: id });
        proof {
            assert(r@ =~= seq![FetchRequest { kind: kind, id: id }]);
        }
    } else {
        proof {
            assert(r@ =~= Seq::<FetchRequest>::empty());
        }
    }
    r
}

impl Engine {
    /// Apply one classified operation, in arrival order, and hand back the
    /// repair fetches it newly issued.
    pub fn apply(&mut self, a: Action, now: u64) -> (out: Vec<FetchRequest>)
        requires
            old(self).wf(),
        ensures
            final(self).model() == step(old(self).model(), a, now).0,
            out@ == step(old(self).model(), a, now).1,
            final(self).wf(),
    {
        let ghost m0 = old(self).model();
        match a {
            Action::CreateServer(p) => {
                self.store.upsert_server(Server { id: p.id, name: Some(p.name), avail: Availability::Available });
                no_requests()
            }
            Action::ReplaceServer(p) => {
                let live = match self.store.get_server(p.id) {
                    Some(s) => s.avail != Availability::Removed,
                    None => false,
                };
                if live {
                    self.store.patch_server_name(p.id, p.name);
                    no_requests()
                } else {
                    self.store.upsert_server(Server { id: p.id, name: p.name, avail: Availability::Unavailable });
                    let iss = request_slot(&mut self.server_fetches, p.id);
                    requests_if(iss, FetchKind::Server, p.id)
                }
            }
            Action::OutageServer(id) => {
                let state: Option<bool> = match self.store.get_server(id) {
                    Some(s) => Some(s.avail == Availability::Removed),
                    None => None,
                };
                match state {
                    Some(true) => no_requests(),
                    Some(false) => {
                        self.store.set_server_availability(id, Availability::Unavailable);
                        no_requests()
                    }
                    None => {
                        self.store.upsert_server(Server { id: id, name: None, avail: Availability::Unavailable });
                        let iss = request_slot(&mut self.server_fetches, id);
                        requests_if(iss, FetchKind::Server, id)
                    }
                }
            }
            Action::DeleteServer(id) => {
                self.store.remove_server(id);
                proof {
                    lemma_channels_not_of(m0.channels, id);
                    let nch = self.store.chans();
                    assert forall|i: int| 0 <= i < m0.pending.len() implies !has_rec(nch, #[trigger] m0.pending[i].thread_id) by {
                        let t = m0.pending[i].thread_id;
                        if has_rec(nch, t) {
                            lemma_idx_props(nch, t);
                            let w = crate::keyed::idx_of(nch, t);
                            assert(nch.contains(nch[w]));
                            assert(m0.channels.contains(nch[w]));
                            let u = choose|u: int| 0 <= u < m0.channels.len() && m0.channels[u] == nch[w];
                            assert(has_rec(m0.channels, t));
                        }
                    }
                }
                no_requests()
            }
            Action::CreateChannel(p) => {
                let pid = p.id;
                let sid = p.server_id;
                let kind = p.kind;
                let parent_gap: Option<u64> = match kind {
                    ChannelKind::Thread { parent } => {
                        match self.store.get_channel(parent) {
                            Some(_) => None,
                            None => Some(parent),
                        }
                    }
                    ChannelKind::Ordinary => None,
                };
                let iss_sv = self.ensure_server_live(sid);
                let ghost base = create_base(m0.channels, p, now);
                let present = match self.store.get_channel(pid) {
                    Some(_) => true,
                    None => false,
                };
                if present {
                    self.store.patch_channel_payload(pid, sid, kind, p.name);
                } else {
                    let fresh: Vec<u64> = Vec::new();
                    proof {
                        assert(fresh@ =~= Seq::<u64>::empty());
                    }
                    self.store.upsert_channel(Channel {
                        id: pid,
                        server_id: sid,
                        kind: kind,
                        name: p.name,
                        members: fresh,
                        snapshot_time: now,
                    });
                }
                proof {
                    assert(self.store.chans() == upsert(m0.channels, base));
                    lemma_upsert(m0.channels, base);
                    assert forall|i: int| 0 <= i < pd_models(self.pending@).len() && #[trigger] pd_models(self.pending@)[i].thread_id != pid
                        implies !has_rec(self.store.chans(), pd_models(self.pending@)[i].thread_id) by {
                        assert(!has_rec(m0.channels, pd_models(self.pending@)[i].thread_id));
                    }
                }
                self.drain_replay(pid);
                proof {
                    let installed = with_members(base, replay(base.members, pending_of(m0.pending, pid)));
                    lemma_upsert(m0.channels, base);
                    lemma_upsert_absorb(m0.channels, base, installed);
                    assert(rec_at(upsert(m0.channels, base), pid) == base);
                    assert(self.store.chans() == upsert(m0.channels, installed));
                }
                let mut out: Vec<FetchRequest> = Vec::new();
                if iss_sv {
                    out.push(FetchRequest { kind: FetchKind::Server, id: sid });
                }
                match parent_gap {
                    Some(par) => {
                        let iss_p = request_slot(&mut self.channel_fetches, par);
                        if iss_p {
                            out.push(FetchRequest { kind: FetchKind::Channel, id: par });
                        }
                    }
                    None => {}
                }
                proof {
                    assert(out@ =~= step(m0, a, now).1);
                }
                out
            }
            Action::ReplaceChannel(p) => {
                let present = match self.store.get_channel(p.id) {
                    Some(_) => true,
                    None => false,
                };
                if present {
                    self.store.patch_channel_name(p.id, p.name);
                    proof {
                        lemma_upsert(m0.channels, with_name(rec_at(m0.channels, p.id), merge_str(p.name, rec_at(m0.channels, p.id).name)));
                        assert forall|i: int| 0 <= i < pd_models(self.pending@).len()
                            implies !has_rec(self.store.chans(), #[trigger] pd_models(self.pending@)[i].thread_id) by {
                            assert(!has_rec(m0.channels, pd_models(self.pending@)[i].thread_id));
                        }
                    }
                    no_requests()
                } else {
                    let iss = request_slot(&mut self.channel_fetches, p.id);
                    requests_if(iss, FetchKind::Channel, p.id)
                }
            }
            Action::DeleteChannel(id) => {
                self.store.remove_channel(id);
                let mut w: Vec<MembershipDelta> = Vec::new();
                core::mem::swap(&mut w, &mut self.pending);
                let pair = split_pending(w, id);
                self.pending = pair.0;
                proof {
                    lemma_remove(m0.channels, id);
                    lemma_pending_not_of(m0.pending, id);
                    let npd = pd_models(self.pending@);
                    assert forall|i: int| 0 <= i < npd.len()
                        implies !has_rec(self.store.chans(), #[trigger] npd[i].thread_id) by {
                        assert(npd.contains(npd[i]));
                        assert(m0.pending.contains(npd[i]) && npd[i].thread_id != id);
                        let u = choose|u: int| 0 <= u < m0.pending.len() && m0.pending[u] == npd[i];
                        assert(!has_rec(m0.channels, m0.pending[u].thread_id));
                    }
                }
                no_requests()
            }
            Action::ApplyMembershipDelta(d) => {
                let tid = d.thread_id;
                let info: Option<u64> = match self.store.get_channel(tid) {
                    Some(c) => Some(c.snapshot_time),
                    None => None,
                };
                match info {
                    Some(snap) => {
                        self.store.apply_thread_membership_delta(tid, &d.added, &d.removed);
                        proof {
                            lemma_upsert(m0.channels, with_members(rec_at(m0.channels, tid),
                                delta_members(rec_at(m0.channels, tid).members, d@.added, d@.removed)));
                            assert forall|i: int| 0 <= i < pd_models(self.pending@).len()
                                implies !has_rec(self.store.chans(), #[trigger] pd_models(self.pending@)[i].thread_id) by {
                                assert(!has_rec(m0.channels, pd_models(self.pending@)[i].thread_id));
                            }
                        }
                        let stale = now > snap && now - snap > self.window;
                        proof {
                            assert(stale == (rec_at(m0.channels, tid).snapshot_time + m0.window < now));
                        }
                        if stale {
                            let iss = request_slot(&mut self.channel_fetches, tid);
                            requests_if(iss, FetchKind::Channel, tid)
                        } else {
                            no_requests()
                        }
                    }
                    None => {
                        proof {
                            lemma_pd_models_push(self.pending@, d);
                        }
                        self.pending.push(d);
                        let iss = request_slot(&mut self.channel_fetches, tid);
                        requests_if(iss, FetchKind::Channel, tid)
                    }
                }
            }
            Action::Ignored => no_requests(),
        }
    }
}

/// Completion of a server repair fetch. An unsolicited result is ignored;
/// `not_found` is reconciled as a confirmed delete; a payload is applied
/// only if the record still exists and is not removed (a deletion that
/// arrived first cancels the result); the "again" mark re-issues one
/// follow-up fetch.
pub open spec fn step_complete_server(m: EngineModel, id: u64, found: Option<ServerPayload>) -> (EngineModel, Seq<FetchRequest>) {
    if !has_rec(m.server_fetches, id) {
        (m, Seq::empty())
    } else {
        let again = rec_at(m.server_fetches, id).again;
        let cleared = remove_rec(m.server_fetches, id);
        match found {
            None => (EngineModel {
                servers: set_avail(m.servers, id, Availability::Removed),
                channels: channels_not_of(m.channels, id),
                members: members_not_of(m.members, id),
                server_fetches: cleared,
                ..m
            }, Seq::empty()),
            Some(p) => if server_live(m.servers, id) {
                (EngineModel {
                    servers: upsert(m.servers, Server { id: p.id, name: Some(p.name), avail: Availability::Available }),
                    server_fetches: if again {
                        slot_request(cleared, id)
                    } else {
                        cleared
                    },
                    ..m
                }, if again {
                    seq![FetchRequest { kind: FetchKind::Server, id: id }]
                } else {
                    Seq::empty()
                })
            } else {
                (EngineModel { server_fetches: cleared, ..m }, Seq::empty())
            },
        }
    }
}

/// Completion of a channel repair fetch. An unsolicited result is ignored;
/// `not_found` is reconciled as a delete (queued deltas dropped); a payload
/// is applied only if the channel still exists or queued deltas wait for
/// it, installing the authoritative member snapshot and replaying the
/// queue; the "again" mark re-issues one follow-up fetch.
pub open spec fn step_complete_channel(m: EngineModel, id: u64, found: Option<ChannelPayload>, mems: Seq<u64>, now: u64) -> (EngineModel, Seq<FetchRequest>) {
    if !has_rec(m.channel_fetches, id) {
        (m, Seq::empty())
    } else {
        let again = rec_at(m.channel_fetches, id).again;
        let cleared = remove_rec(m.channel_fetches, id);
        match found {
            None => (EngineModel {
                channels: remove_rec(m.channels, id),
                pending: pending_not_of(m.pending, id),
                channel_fetches: cleared,
                ..m
            }, Seq::empty()),
            Some(p) => if has_rec(m.channels, id) || has_pending(m.pending, id) {
                let base = ChannelModel {
                    id: p.id,
                    server_id: p.server_id,
                    kind: p.kind,
                    name: p.name,
                    members: dedup(mems),
                    snapshot_time: now,
                };
                let installed = with_members(base, replay(base.members, pending_of(m.pending, id)));
                let iss_sv = if !server_live(m.servers, p.server_id) && slot_issues(m.server_fetches, p.server_id) {
                    seq![FetchRequest { kind: FetchKind::Server, id: p.server_id }]
                } else {
                    Seq::empty()
                };
                (EngineModel {
                    servers: ensure_live(m.servers, p.server_id),
                    channels: upsert(m.channels, installed),
                    members: m.members,
                    server_fetches: if server_live(m.servers, p.server_id) {
                        m.server_fetches
                    } else {
                        slot_request(m.server_fetches, p.server_id)
                    },
                    channel_fetches: if again {
                        slot_request(cleared, id)
                    } else {
                        cleared
                    },
                    pending: pending_not_of(m.pending, id),
                    window: m.window,
                }, iss_sv + (if again {
                    seq![FetchRequest { kind: FetchKind::Channel, id: id }]
                } else {
                    Seq::empty()
                }))
            } else {
                (EngineModel { channel_fetches: cleared, ..m }, Seq::empty())
            },
        }
    }
}

impl Engine {
    /// Reconcile the result of a server repair fetch.
    pub fn complete_server_fetch(&mut self, id: u64, found: Option<ServerPayload>) -> (out: Vec<FetchRequest>)
        requires
            old(self).wf(),
            match found {
                Some(p) => p.id == id,
                None => true,
            },
        ensures
            final(self).model() == step_complete_server(old(self).model(), id, found).0,
            out@ == step_complete_server(old(self).model(), id, found).1,
            final(self).wf(),
    {
        let ghost m0 = old(self).model();
        let i = match find_slot(&self.server_fetches, id) {
            Some(i) => i,
            None => {
                return no_requests();
            }
        };
        proof {
            lemma_idx_unique(self.server_fetches@, id, i as int);
            lemma_remove(self.server_fetches@, id);
        }
        let again = self.server_fetches[i].again;
        self.server_fetches.remove(i);
        match found {
            None => {
                self.store.remove_server(id);
                proof {
                    lemma_channels_not_of(m0.channels, id);
                    let nch = self.store.chans();
                    assert forall|w: int| 0 <= w < m0.pending.len() implies !has_rec(nch, #[trigger] m0.pending[w].thread_id) by {
                        let t = m0.pending[w].thread_id;
                        if has_rec(nch, t) {
                            lemma_idx_props(nch, t);
                            let u = crate::keyed::idx_of(nch, t);
                            assert(nch.contains(nch[u]));
                            assert(m0.channels.contains(nch[u]));
                            let v = choose|v: int| 0 <= v < m0.channels.len() && m0.channels[v] == nch[u];
                            assert(has_rec(m0.channels, t));
                        }
                    }
                }
                no_requests()
            }
            Some(p) => {
                let live = match self.store.get_server(id) {
                    Some(s) => s.avail != Availability::Removed,
                    None => false,
                };
                if live {
                    self.store.upsert_server(Server { id: p.id, name: Some(p.name), avail: Availability::Available });
                    if again {
                        let iss = request_slot(&mut self.server_fetches, id);
                        requests_if(iss, FetchKind::Server, id)
                    } else {
                        no_requests()
                    }
                } else {
                    no_requests()
                }
            }
        }
    }

    /// Reconcile the result of a channel repair fetch; `mems` is the
    /// authoritative membership that came with a found channel.
    pub fn complete_channel_fetch(&mut self, id: u64, found: Option<ChannelPayload>, mems: Vec<u64>, now: u64) -> (out: Vec<FetchRequest>)
        requires
            old(self).wf(),
            match found {
                Some(p) => p.id == id,
                None => true,
            },
        ensures
            final(self).model() == step_complete_channel(old(self).model(), id, found, mems@, now).0,
            out@ == step_complete_channel(old(self).model(), id, found, mems@, now).1,
            final(self).wf(),
    {
        let ghost m0 = old(self).model();
        let i = match find_slot(&self.channel_fetches, id) {
            Some(i) => i,
            None => {
                return no_requests();
            }
        };
        proof {
            lemma_idx_unique(self.channel_fetches@, id, i as int);
            lemma_remove(self.channel_fetches@, id);
        }
        let again = self.channel_fetches[i].again;
        self.channel_fetches.remove(i);
        match found {
            None => {
                self.store.remove_channel(id);
                let mut w: Vec<MembershipDelta> = Vec::new();
                core::mem::swap(&mut w, &mut self.pending);
                let pair = split_pending(w, id);
                self.pending = pair.0;
                proof {
                    lemma_remove(m0.channels, id);
                    lemma_pending_not_of(m0.pending, id);
                    let npd = pd_models(self.pending@);
                    assert forall|w2: int| 0 <= w2 < npd.len()
                        implies !has_rec(self.store.chans(), #[trigger] npd[w2].thread_id) by {
                        assert(npd.contains(npd[w2]));
                        assert(m0.pending.contains(npd[w2]) && npd[w2].thread_id != id);
                        let u = choose|u: int| 0 <= u < m0.pending.len() && m0.pending[u] == npd[w2];
                        assert(!has_rec(m0.channels, m0.pending[u].thread_id));
                    }
                }
                no_requests()
            }
            Some(p) => {
                let present = match self.store.get_channel(id) {
                    Some(_) => true,
                    None => false,
                };
                let relevant = present || pending_waits(&self.pending, id);
                if !relevant {
                    no_requests()
                } else {
                    let sid = p.server_id;
                    let kind = p.kind;
                    let mut base_mem: Vec<u64> = Vec::new();
                    let mut k: usize = 0;
                    let mn = mems.len();
                    while k < mn
                        invariant
                            mn == mems@.len(),
                            k <= mn,
                            base_mem@ == add_absent(Seq::empty(), mems@.take(k as int)),
                        decreases mn - k,
                    {
                        let x = mems[k];
                        proof {
                            assert(mems@.take(k as int + 1).drop_last() =~= mems@.take(k as int));
                            assert(mems@.take(k as int + 1).last() == mems@[k as int]);
                        }
                        if !contains_id(&base_mem, x) {
                            base_mem.push(x);
                        }
                        k = k + 1;
                    }
                    proof {
                        lemma_take_all(mems@);
                        assert(base_mem@ == dedup(mems@));
                        assert(Seq::<u64>::empty().no_duplicates());
                        lemma_add_absent(Seq::empty(), mems@);
                    }
                    let iss_sv = self.ensure_server_live(sid);
                    let ghost base = ChannelModel {
                        id: p.id,
                        server_id: sid,
                        kind: kind,
                        name: p.name,
                        members: dedup(mems@),
                        snapshot_time: now,
                    };
                    if present {
                        self.store.patch_channel_payload(id, sid, kind, p.name);
                        proof {
                            lemma_upsert(m0.channels, with_payload(rec_at(m0.channels, id), sid, kind, base.name));
                        }
                        self.store.set_thread_snapshot(id, base_mem, now);
                        proof {
                            lemma_upsert_absorb(m0.channels,
                                with_payload(rec_at(m0.channels, id), sid, kind, base.name), base);
                            assert(self.store.chans() == upsert(m0.channels, base));
                        }
                    } else {
                        self.store.upsert_channel(Channel {
                            id: id,
                            server_id: sid,
                            kind: kind,
                            name: p.name,
                            members: base_mem,
                            snapshot_time: now,
                        });
                        proof {
                            assert(self.store.chans() == upsert(m0.channels, base));
                        }
                    }
                    proof {
                        lemma_upsert(m0.channels, base);
                        assert forall|w2: int| 0 <= w2 < pd_models(self.pending@).len() && #[trigger] pd_models(self.pending@)[w2].thread_id != id
                            implies !has_rec(self.store.chans(), pd_models(self.pending@)[w2].thread_id) by {
                            assert(!has_rec(m0.channels, pd_models(self.pending@)[w2].thread_id));
                        }
                    }
                    self.drain_replay(id);
                    proof {
                        let installed = with_members(base, replay(base.members, pending_of(m0.pending, id)));
                        lemma_upsert(m0.channels, base);
                        lemma_upsert_absorb(m0.channels, base, installed);
                        assert(rec_at(upsert(m0.channels, base), id) == base);
                        assert(self.store.chans() == upsert(m0.channels, installed));
                    }
                    let mut out: Vec<FetchRequest> = Vec::new();
                    if iss_sv {
                        out.push(FetchRequest { kind: FetchKind::Server, id: sid });
                    }
                    if again {
                        let iss2 = request_slot(&mut self.channel_fetches, id);
                        if iss2 {
                            out.push(FetchRequest { kind: FetchKind::Channel, id: id });
                        }
                    }
                    proof {
                        assert(out@ =~= step_complete_channel(m0, id, found, mems@, now).1);
                    }
                    out
                }
            }
        }
    }
}

/// One item handed over by the connected stream: a typed event, a per-item
/// receive error, or the end of the stream.
pub enum StreamItem {
    Item(crate::events::Event),
    ReceiveError,
    Closed,
}

/// What the ingestion loop's driver does next: keep pulling (issuing the
/// repair fetches handed back), or surface the lifecycle signal that the
/// stream ended.
pub enum IngestOutcome {
    Continue(Vec<FetchRequest>),
    Ended,
}

impl Engine {
    /// One turn of the ingestion loop: classification then reconciliation,
    /// run to completion before the next item is pulled. A single failed
    /// receive is logged upstream and skipped; stream closure ends the loop
    /// and is surfaced, never a crash.
    pub fn ingest(&mut self, item: StreamItem, now: u64) -> (r: IngestOutcome)
        requires
            old(self).wf(),
        ensures
            final(self).wf(),
            match item {
                StreamItem::Item(ev) => {
                    &&& final(self).model() == step(old(self).model(), crate::events::spec_classify(ev), now).0
                    &&& (r matches IngestOutcome::Continue(v)
                        && v@ == step(old(self).model(), crate::events::spec_classify(ev), now).1)
                },
                StreamItem::ReceiveError => {
                    &&& *final(self) == *old(self)
                    &&& (r matches IngestOutcome::Continue(v) && v@ == Seq::<FetchRequest>::empty())
                },
                StreamItem::Closed => {
                    &&& *final(self) == *old(self)
                    &&& (r matches IngestOutcome::Ended)
                },
            },
    {
        match item {
            StreamItem::Item(ev) => {
                let a = crate::events::classify(ev);
                let out = self.apply(a, now);
                IngestOutcome::Continue(out)
            }
            StreamItem::ReceiveError => IngestOutcome::Continue(no_requests()),
            StreamItem::Closed => IngestOutcome::Ended,
        }
    }
}

} // verus!
