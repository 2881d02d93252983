//! The engine's governing laws, each proved against the reconciliation
//! step itself: idempotence of creates and replaces, non-destructiveness
//! of partial updates, the removal cascade, single outstanding repair
//! fetches, and order-independence of a thread create against its
//! membership delta.

use vstd::prelude::*;
use crate::keyed::{Keyed, has_rec, rec_at, unique_keys, upsert, lemma_idx_props, lemma_idx_unique, lemma_upsert, lemma_upsert_idempotent};
use crate::store::{Availability, ChannelModel, with_members, delta_members, merge_opt, merge_str};
use crate::events::{ServerPatch, ChannelPayload, ChannelPatch, Action};
use crate::reconcile::{EngineModel, wf_model, step, step_membership, step_create_channel, SlotRec, slot_request, server_live, pending_of, pending_not_of, has_pending, replay, lemma_pending_not_of};

verus! {

/// The operations covered by the idempotence law.
pub open spec fn is_create_or_replace(a: Action) -> bool {
    match a {
        Action::CreateServer(_) => true,
        Action::ReplaceServer(_) => true,
        Action::CreateChannel(_) => true,
        Action::ReplaceChannel(_) => true,
        _ => false,
    }
}

/// A queue in which no delta waits for `tid` yields nothing for `tid`.
pub proof fn lemma_pending_of_empty(s: Seq<crate::events::DeltaModel>, tid: u64)
    requires
        forall|i: int| 0 <= i < s.len() ==> #[trigger] s[i].thread_id != tid,
    ensures
        pending_of(s, tid) == Seq::<crate::events::DeltaModel>::empty(),
    decreases s.len(),
{
    if s.len() == 0 {
    } else {
        assert(forall|i: int| 0 <= i < s.drop_last().len() ==> #[trigger] s.drop_last()[i].thread_id != tid);
        lemma_pending_of_empty(s.drop_last(), tid);
        assert(s.last().thread_id != tid);
    }
}

/// Removing `tid`'s deltas from a queue that has none is the identity.
pub proof fn lemma_pending_not_of_id(s: Seq<crate::events::DeltaModel>, tid: u64)
    requires
        forall|i: int| 0 <= i < s.len() ==> #[trigger] s[i].thread_id != tid,
    ensures
        pending_not_of(s, tid) == s,
    decreases s.len(),
{
    if s.len() == 0 {
        assert(pending_not_of(s, tid) =~= s);
    } else {
        assert(forall|i: int| 0 <= i < s.drop_last().len() ==> #[trigger] s.drop_last()[i].thread_id != tid);
        lemma_pending_not_of_id(s.drop_last(), tid);
        assert(s.last().thread_id != tid);
        assert(pending_not_of(s, tid) == s.drop_last().push(s.last()));
        assert(s.drop_last().push(s.last()) =~= s);
    }
}

/// After draining `tid`'s deltas, none wait for `tid`.
pub proof fn lemma_drained(s: Seq<crate::events::DeltaModel>, tid: u64)
    ensures
        pending_of(pending_not_of(s, tid), tid) == Seq::<crate::events::DeltaModel>::empty(),
{
    lemma_pending_not_of(s, tid);
    let out = pending_not_of(s, tid);
    assert forall|i: int| 0 <= i < out.len() implies #[trigger] out[i].thread_id != tid by {
        assert(out.contains(out[i]));
    }
    lemma_pending_of_empty(out, tid);
}

/// Idempotence: applying the same create or replace operation twice in a
/// row yields an object graph identical to applying it once.
pub proof fn lemma_idempotent(m: EngineModel, a: Action, now: u64)
    requires
        wf_model(m),
        is_create_or_replace(a),
    ensures
        ({
            let m1 = step(m, a, now).0;
            let m2 = step(m1, a, now).0;
            m2.servers == m1.servers && m2.channels == m1.channels && m2.members == m1.members
        }),
{
    let m1 = step(m, a, now).0;
    let m2 = step(m1, a, now).0;
    match a {
        Action::CreateServer(p) => {
            lemma_upsert_idempotent(m.servers, crate::store::Server { id: p.id, name: Some(p.name), avail: Availability::Available });
        }
        Action::ReplaceServer(p) => {
            if server_live(m.servers, p.id) {
                let r = rec_at(m.servers, p.id);
                let r1 = crate::store::Server { id: p.id, name: merge_opt(p.name, r.name), avail: r.avail };
                lemma_upsert(m.servers, r1);
                lemma_idx_props(m.servers, p.id);
                assert(server_live(m1.servers, p.id));
                assert(rec_at(m1.servers, p.id) == r1);
                assert(merge_opt(p.name, r1.name) == r1.name);
                lemma_upsert_idempotent(m.servers, r1);
            } else {
                let r1 = crate::store::Server { id: p.id, name: p.name, avail: Availability::Unavailable };
                lemma_upsert(m.servers, r1);
                assert(server_live(m1.servers, p.id));
                assert(rec_at(m1.servers, p.id) == r1);
                assert(merge_opt(p.name, r1.name) == r1.name);
                lemma_upsert_idempotent(m.servers, r1);
            }
        }
        Action::CreateChannel(p) => {
            lemma_create_channel_idempotent(m, p, now);
        }
        Action::ReplaceChannel(p) => {
            if has_rec(m.channels, p.id) {
                let ex = rec_at(m.channels, p.id);
                let n1 = crate::store::with_name(ex, merge_str(p.name, ex.name));
                lemma_upsert(m.channels, n1);
                assert(has_rec(m1.channels, p.id));
                assert(rec_at(m1.channels, p.id) == n1);
                assert(merge_str(p.name, n1.name) == n1.name);
                assert(crate::store::with_name(n1, n1.name) == n1);
                lemma_upsert_idempotent(m.channels, n1);
            } else {
                assert(m1.channels == m.channels);
                assert(m2.channels == m1.channels);
            }
        }
        _ => {}
    }
}

proof fn lemma_create_channel_idempotent(m: EngineModel, p: ChannelPayload, now: u64)
    requires
        wf_model(m),
    ensures
        ({
            let m1 = step(m, Action::CreateChannel(p), now).0;
            let m2 = step(m1, Action::CreateChannel(p), now).0;
            m2.servers == m1.servers && m2.channels == m1.channels && m2.members == m1.members
        }),
{
    let m1 = step(m, Action::CreateChannel(p), now).0;
    let m2 = step(m1, Action::CreateChannel(p), now).0;
    // the server is live after the first application, so the second leaves it be
    if server_live(m.servers, p.server_id) {
        assert(m1.servers == m.servers);
    } else {
        lemma_upsert(m.servers, crate::reconcile::placeholder(p.server_id));
        assert(server_live(m1.servers, p.server_id));
    }
    assert(m2.servers == m1.servers);
    // the channel record installed twice is the same record
    let base1 = crate::reconcile::create_base(m.channels, p, now);
    let inst1 = with_members(base1, replay(base1.members, pending_of(m.pending, p.id)));
    lemma_upsert(m.channels, inst1);
    assert(m1.channels == upsert(m.channels, inst1));
    assert(has_rec(m1.channels, p.id));
    assert(rec_at(m1.channels, p.id) == inst1);
    let base2 = crate::reconcile::create_base(m1.channels, p, now);
    assert(base2 == crate::store::with_payload(inst1, p.server_id, p.kind, p.name));
    lemma_drained(m.pending, p.id);
    assert(m1.pending == pending_not_of(m.pending, p.id));
    assert(pending_of(m1.pending, p.id) == Seq::<crate::events::DeltaModel>::empty());
    let inst2 = with_members(base2, replay(base2.members, pending_of(m1.pending, p.id)));
    assert(replay(base2.members, pending_of(m1.pending, p.id)) == base2.members);
    assert(inst2 == base2);
    assert(inst2 == inst1);
    lemma_upsert_idempotent(m.channels, inst1);
    assert(m2.channels == m1.channels);
    assert(m2.members == m1.members);
}

/// Partial-update non-destructiveness for servers: a replace missing the
/// name field leaves the name as it was, and a replace never touches the
/// availability of a live record.
pub proof fn lemma_replace_server_preserves(m: EngineModel, p: ServerPatch, now: u64)
    requires
        wf_model(m),
        server_live(m.servers, p.id),
    ensures
        ({
            let m1 = step(m, Action::ReplaceServer(p), now).0;
            &&& has_rec(m1.servers, p.id)
            &&& rec_at(m1.servers, p.id).avail == rec_at(m.servers, p.id).avail
            &&& (p.name matches Option::None ==> rec_at(m1.servers, p.id).name == rec_at(m.servers, p.id).name)
        }),
{
    let r = rec_at(m.servers, p.id);
    lemma_upsert(m.servers, crate::store::Server { id: p.id, name: merge_opt(p.name, r.name), avail: r.avail });
}

/// Partial-update non-destructiveness for channels: a replace missing the
/// name field leaves the name as it was, and a replace never touches the
/// owning server, the kind, the member set or the snapshot time.
pub proof fn lemma_replace_channel_preserves(m: EngineModel, p: ChannelPatch, now: u64)
    requires
        wf_model(m),
        has_rec(m.channels, p.id),
    ensures
        ({
            let m1 = step(m, Action::ReplaceChannel(p), now).0;
            &&& has_rec(m1.channels, p.id)
            &&& rec_at(m1.channels, p.id).server_id == rec_at(m.channels, p.id).server_id
            &&& rec_at(m1.channels, p.id).kind == rec_at(m.channels, p.id).kind
            &&& rec_at(m1.channels, p.id).members == rec_at(m.channels, p.id).members
            &&& rec_at(m1.channels, p.id).snapshot_time == rec_at(m.channels, p.id).snapshot_time
            &&& (p.name matches Option::None ==> rec_at(m1.channels, p.id).name == rec_at(m.channels, p.id).name)
        }),
{
    let ex = rec_at(m.channels, p.id);
    lemma_upsert(m.channels, crate::store::with_name(ex, merge_str(p.name, ex.name)));
}

/// Availability cascade: after a confirmed delete of server `id`, no
/// channel and no member record references it.
pub proof fn lemma_delete_cascades(m: EngineModel, id: u64, now: u64)
    requires
        wf_model(m),
    ensures
        ({
            let m1 = step(m, Action::DeleteServer(id), now).0;
            &&& forall|i: int| 0 <= i < m1.channels.len() ==> #[trigger] m1.channels[i].server_id != id
            &&& forall|i: int| 0 <= i < m1.members.len() ==> #[trigger] m1.members[i].server_id != id
        }),
{
    let m1 = step(m, Action::DeleteServer(id), now).0;
    crate::store::lemma_channels_not_of(m.channels, id);
    crate::store::lemma_members_not_of(m.members, id);
    assert forall|i: int| 0 <= i < m1.channels.len() implies #[trigger] m1.channels[i].server_id != id by {
        assert(m1.channels.contains(m1.channels[i]));
    }
    assert forall|i: int| 0 <= i < m1.members.len() implies #[trigger] m1.members[i].server_id != id by {
        assert(m1.members.contains(m1.members[i]));
    }
}

/// The number of outstanding fetch slots for one object.
pub open spec fn slot_count(s: Seq<SlotRec>, id: u64) -> int
    decreases s.len(),
{
    if s.len() == 0 {
        0
    } else {
        slot_count(s.drop_last(), id) + if s.last().id == id {
            1int
        } else {
            0int
        }
    }
}

/// Under unique slots, the count is one when a slot is outstanding and
/// zero when none is.
pub proof fn lemma_slot_count(s: Seq<SlotRec>, id: u64)
    requires
        unique_keys(s),
    ensures
        slot_count(s, id) == if has_rec(s, id) {
            1int
        } else {
            0int
        },
    decreases s.len(),
{
    if s.len() == 0 {
    } else {
        let pre = s.drop_last();
        assert(unique_keys(pre));
        lemma_slot_count(pre, id);
        if s.last().id == id {
            assert(!has_rec(pre, id)) by {
                if has_rec(pre, id) {
                    let w = crate::keyed::idx_of(pre, id);
                    lemma_idx_props(pre, id);
                    assert(s[w].key() == id && s[s.len() - 1].key() == id);
                }
            }
            assert(has_rec(s, id)) by {
                assert(s[s.len() - 1].id == id);
            }
        } else {
            assert(has_rec(s, id) == has_rec(pre, id)) by {
                if has_rec(s, id) {
                    let w = crate::keyed::idx_of(s, id);
                    lemma_idx_props(s, id);
                    assert(w != s.len() - 1);
                    assert(pre[w].id == id);
                }
                if has_rec(pre, id) {
                    let w = crate::keyed::idx_of(pre, id);
                    lemma_idx_props(pre, id);
                    assert(s[w].id == id);
                }
            }
        }
    }
}

/// Membership-delta staleness repair, first half: a delta for a thread
/// whose snapshot is older than the staleness window (or for an absent
/// thread) leaves exactly one outstanding repair fetch for that thread.
pub proof fn lemma_stale_delta_single_fetch(m: EngineModel, d: crate::events::DeltaModel, now: u64)
    requires
        wf_model(m),
        !has_rec(m.channels, d.thread_id)
            || rec_at(m.channels, d.thread_id).snapshot_time + m.window < now,
    ensures
        slot_count(step_membership(m, d, now).0.channel_fetches, d.thread_id) == 1,
{
    let cf1 = step_membership(m, d, now).0.channel_fetches;
    assert(cf1 == slot_request(m.channel_fetches, d.thread_id));
    if has_rec(m.channel_fetches, d.thread_id) {
        lemma_upsert(m.channel_fetches, SlotRec { id: d.thread_id, again: true });
    } else {
        lemma_upsert(m.channel_fetches, SlotRec { id: d.thread_id, again: false });
    }
    lemma_slot_count(cf1, d.thread_id);
}

/// Membership-delta staleness repair, second half: while a fetch for the
/// thread is outstanding, any further delta for it issues no new request
/// and leaves exactly one outstanding fetch.
pub proof fn lemma_repeat_delta_no_duplicate_fetch(m: EngineModel, d: crate::events::DeltaModel, now: u64)
    requires
        wf_model(m),
        has_rec(m.channel_fetches, d.thread_id),
    ensures
        slot_count(step_membership(m, d, now).0.channel_fetches, d.thread_id) == 1,
        step_membership(m, d, now).1 == Seq::<crate::reconcile::FetchRequest>::empty(),
{
    let cf1 = step_membership(m, d, now).0.channel_fetches;
    if has_rec(m.channels, d.thread_id) && !(rec_at(m.channels, d.thread_id).snapshot_time + m.window < now) {
        assert(cf1 == m.channel_fetches);
        lemma_slot_count(cf1, d.thread_id);
    } else {
        assert(cf1 == slot_request(m.channel_fetches, d.thread_id));
        lemma_upsert(m.channel_fetches, SlotRec { id: d.thread_id, again: true });
        lemma_slot_count(cf1, d.thread_id);
    }
}

/// Ordering: a thread create followed by a membership delta for it, and
/// the delta arriving first (queued, then replayed by the create), leave
/// the object graph in the same state.
pub proof fn lemma_create_delta_commute(m: EngineModel, p: ChannelPayload, d: crate::events::DeltaModel, now: u64)
    requires
        wf_model(m),
        !has_rec(m.channels, p.id),
        !has_pending(m.pending, p.id),
        d.thread_id == p.id,
    ensures
        ({
            let ma = step_membership(step_create_channel(m, p, now).0, d, now).0;
            let mb = step_create_channel(step_membership(m, d, now).0, p, now).0;
            ma.servers == mb.servers && ma.channels == mb.channels && ma.members == mb.members
        }),
{
    let pid = p.id;
    assert forall|i: int| 0 <= i < m.pending.len() implies #[trigger] m.pending[i].thread_id != pid by {
        if m.pending[i].thread_id == pid {
            assert(has_pending(m.pending, pid));
        }
    }
    lemma_pending_of_empty(m.pending, pid);
    lemma_pending_not_of_id(m.pending, pid);
    let base = crate::reconcile::create_base(m.channels, p, now);
    assert(base.members == Seq::<u64>::empty());
    assert(base.snapshot_time == now);
    // order one: create, then delta applied in place
    let m1a = step_create_channel(m, p, now).0;
    assert(m1a.channels == upsert(m.channels, with_members(base, base.members)));
    assert(with_members(base, base.members) == base);
    lemma_upsert(m.channels, base);
    assert(has_rec(m1a.channels, pid) && rec_at(m1a.channels, pid) == base);
    let ma = step_membership(m1a, d, now).0;
    let touched = with_members(base, delta_members(base.members, d.added, d.removed));
    assert(ma.channels == upsert(m1a.channels, touched));
    crate::keyed::lemma_upsert_absorb(m.channels, base, touched);
    assert(ma.channels == upsert(m.channels, touched));
    // order two: delta queued with a fetch, then create replays it
    let m1b = step_membership(m, d, now).0;
    assert(m1b.channels == m.channels);
    assert(m1b.pending == m.pending.push(d));
    let base_b = crate::reconcile::create_base(m1b.channels, p, now);
    assert(base_b == base);
    let pend_b = pending_of(m1b.pending, pid);
    assert(m1b.pending.drop_last() =~= m.pending);
    assert(pend_b == pending_of(m.pending, pid).push(d));
    assert(pend_b == Seq::<crate::events::DeltaModel>::empty().push(d));
    let mb = step_create_channel(m1b, p, now).0;
    let inst_b = with_members(base, replay(base.members, pend_b));
    assert(pend_b.drop_last() =~= Seq::<crate::events::DeltaModel>::empty());
    assert(replay(base.members, pend_b) == delta_members(replay(base.members, pend_b.drop_last()), d.added, d.removed));
    assert(replay(base.members, pend_b.drop_last()) == base.members);
    assert(inst_b == touched);
    assert(mb.channels == upsert(m1b.channels, inst_b));
    assert(mb.channels == ma.channels);
    // the servers see the same single placeholder decision in both orders
    assert(m1b.servers == m.servers);
    assert(ma.servers == m1a.servers);
    assert(mb.servers == crate::reconcile::ensure_live(m.servers, p.server_id));
    assert(ma.servers == crate::reconcile::ensure_live(m.servers, p.server_id));
    assert(ma.members == m.members && mb.members == m.members);
}

} // verus!