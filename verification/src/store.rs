//! The object graph store: servers, channels (threads included) and members,
//! each kept as a vector of records with unique identifiers.
//!
//! All mutating operations are total over well-formed input and idempotent;
//! removing an absent object is a no-op, because the event source may
//! redeliver. Readers obtain immutable snapshots; all mutation is event
//! driven through the reconciler.

use vstd::prelude::*;
use crate::keyed::{Keyed, has_rec, rec_at, idx_of, unique_keys, upsert, remove_rec, lemma_idx_unique, lemma_idx_props, lemma_upsert, lemma_remove, lemma_take_all};

verus! {

/// Per-server availability, reported inconsistently by the event source and
/// normalised here. `Removed` is terminal for the object's identity: only a
/// brand-new server payload (a new lifecycle reusing the identifier) leaves
/// it, and a removed server owns no channels and no members.
#[derive(PartialEq, Eq, Structural, Clone, Copy, Debug)]
pub enum Availability {
    Available,
    Unavailable,
    Removed,
}

/// Ordinary channel, or thread nested under a parent channel.
#[derive(PartialEq, Eq, Structural, Clone, Copy, Debug)]
pub enum ChannelKind {
    Ordinary,
    Thread { parent: u64 },
}

/// A workspace-like container owning channels and a member roster. A
/// placeholder established before its full payload arrives carries no name.
pub struct Server {
    pub id: u64,
    pub name: Option<String>,
    pub avail: Availability,
}

/// A conversation container within a server. Threads additionally carry a
/// member set maintained by advisory membership deltas, together with the
/// time of the last authoritative membership snapshot.
pub struct Channel {
    pub id: u64,
    pub server_id: u64,
    pub kind: ChannelKind,
    pub name: String,
    pub members: Vec<u64>,
    pub snapshot_time: u64,
}

/// A user's membership record, scoped to a server's roster.
pub struct Member {
    pub id: u64,
    pub server_id: u64,
    pub name: String,
}

/// The mathematical image of a channel record: the member set is a sequence,
/// so the spec transitions can describe membership updates directly.
pub struct ChannelModel {
    pub id: u64,
    pub server_id: u64,
    pub kind: ChannelKind,
    pub name: String,
    pub members: Seq<u64>,
    pub snapshot_time: u64,
}

impl View for Channel {
    type V = ChannelModel;

    open spec fn view(&self) -> ChannelModel {
        ChannelModel {
            id: self.id,
            server_id: self.server_id,
            kind: self.kind,
            name: self.name,
            members: self.members@,
            snapshot_time: self.snapshot_time,
        }
    }
}

impl Keyed for Server {
    open spec fn key(self) -> u64 {
        self.id
    }
}

impl Keyed for ChannelModel {
    open spec fn key(self) -> u64 {
        self.id
    }
}

impl Keyed for Member {
    open spec fn key(self) -> u64 {
        self.id
    }
}

/// The models of a sequence of channel records.
pub open spec fn ch_models(s: Seq<Channel>) -> Seq<ChannelModel> {
    s.map_values(|c: Channel| c@)
}

pub proof fn lemma_ch_models_push(s: Seq<Channel>, c: Channel)
    ensures
        ch_models(s.push(c)) == ch_models(s).push(c@),
{
    assert(ch_models(s.push(c)) =~= ch_models(s).push(c@));
}

pub proof fn lemma_ch_models_update(s: Seq<Channel>, i: int, c: Channel)
    requires
        0 <= i < s.len(),
    ensures
        ch_models(s.update(i, c)) == ch_models(s).update(i, c@),
{
    assert(ch_models(s.update(i, c)) =~= ch_models(s).update(i, c@));
}

pub proof fn lemma_ch_models_remove(s: Seq<Channel>, i: int)
    requires
        0 <= i < s.len(),
    ensures
        ch_models(s.remove(i)) == ch_models(s).remove(i),
{
    assert(ch_models(s.remove(i)) =~= ch_models(s).remove(i));
}

/// The server record with identifier `id` set to availability `a`; absent
/// identifiers are left alone.
pub open spec fn set_avail(servers: Seq<Server>, id: u64, a: Availability) -> Seq<Server> {
    if has_rec(servers, id) {
        upsert(servers, Server { id: id, name: rec_at(servers, id).name, avail: a })
    } else {
        servers
    }
}

/// The channels that do not belong to server `sid` (the release of a removed
/// server's owned channels), in store order.
pub open spec fn channels_not_of(s: Seq<ChannelModel>, sid: u64) -> Seq<ChannelModel>
    decreases s.len(),
{
    if s.len() == 0 {
        Seq::empty()
    } else {
        let pre = channels_not_of(s.drop_last(), sid);
        if s.last().server_id == sid {
            pre
        } else {
            pre.push(s.last())
        }
    }
}

/// The members that do not belong to server `sid`, in store order.
pub open spec fn members_not_of(s: Seq<Member>, sid: u64) -> Seq<Member>
    decreases s.len(),
{
    if s.len() == 0 {
        Seq::empty()
    } else {
        let pre = members_not_of(s.drop_last(), sid);
        if s.last().server_id == sid {
            pre
        } else {
            pre.push(s.last())
        }
    }
}

pub proof fn lemma_channels_not_of(s: Seq<ChannelModel>, sid: u64)
    ensures
        forall|x: ChannelModel| #[trigger] channels_not_of(s, sid).contains(x) ==> s.contains(x) && x.server_id != sid,
        unique_keys(s) ==> unique_keys(channels_not_of(s, sid)),
    decreases s.len(),
{
    let out = channels_not_of(s, sid);
    if s.len() == 0 {
    } else {
        let pre = s.drop_last();
        lemma_channels_not_of(pre, sid);
        assert forall|x: ChannelModel| #[trigger] out.contains(x) implies s.contains(x) && x.server_id != sid by {
            let prev = channels_not_of(pre, sid);
            if s.last().server_id == sid {
                assert(out == prev);
                assert(prev.contains(x));
                assert(pre.contains(x) && x.server_id != sid);
                let w = choose|w: int| 0 <= w < pre.len() && pre[w] == x;
                assert(s[w] == x);
                assert(s.contains(x));
            } else {
                assert(out == prev.push(s.last()));
                if x == s.last() {
                    assert(s[s.len() - 1] == x);
                    assert(s.contains(x));
                } else {
                    let w = choose|w: int| 0 <= w < out.len() && out[w] == x;
                    assert(w != out.len() - 1);
                    assert(prev[w] == x);
                    assert(prev.contains(x));
                    assert(pre.contains(x) && x.server_id != sid);
                    let w2 = choose|w2: int| 0 <= w2 < pre.len() && pre[w2] == x;
                    assert(s[w2] == x);
                    assert(s.contains(x));
                }
            }
        }
        if unique_keys(s) {
            assert(unique_keys(pre));
            let prev = channels_not_of(pre, sid);
            if s.last().server_id == sid {
            } else {
                assert forall|i: int, j: int| 0 <= i < j < out.len() implies out[i].key() != out[j].key() by {
                    if j < out.len() - 1 {
                        assert(out[i] == prev[i] && out[j] == prev[j]);
                    } else {
                        assert(out[j] == s.last());
                        assert(prev.contains(prev[i]));
                        assert(pre.contains(out[i]));
                        let w = choose|w: int| 0 <= w < pre.len() && pre[w] == out[i];
                        assert(s[w] == out[i]);
                        assert(s[w].key() != s[s.len() - 1].key());
                    }
                }
            }
        }
    }
}

pub proof fn lemma_members_not_of(s: Seq<Member>, sid: u64)
    ensures
        forall|x: Member| #[trigger] members_not_of(s, sid).contains(x) ==> s.contains(x) && x.server_id != sid,
        unique_keys(s) ==> unique_keys(members_not_of(s, sid)),
    decreases s.len(),
{
    let out = members_not_of(s, sid);
    if s.len() == 0 {
    } else {
        let pre = s.drop_last();
        lemma_members_not_of(pre, sid);
        assert forall|x: Member| #[trigger] out.contains(x) implies s.contains(x) && x.server_id != sid by {
            let prev = members_not_of(pre, sid);
            if s.last().server_id == sid {
                assert(out == prev);
                assert(prev.contains(x));
                assert(pre.contains(x) && x.server_id != sid);
                let w = choose|w: int| 0 <= w < pre.len() && pre[w] == x;
                assert(s[w] == x);
                assert(s.contains(x));
            } else {
                assert(out == prev.push(s.last()));
                if x == s.last() {
                    assert(s[s.len() - 1] == x);
                    assert(s.contains(x));
                } else {
                    let w = choose|w: int| 0 <= w < out.len() && out[w] == x;
                    assert(w != out.len() - 1);
                    assert(prev[w] == x);
                    assert(prev.contains(x));
                    assert(pre.contains(x) && x.server_id != sid);
                    let w2 = choose|w2: int| 0 <= w2 < pre.len() && pre[w2] == x;
                    assert(s[w2] == x);
                    assert(s.contains(x));
                }
            }
        }
        if unique_keys(s) {
            assert(unique_keys(pre));
            let prev = members_not_of(pre, sid);
            if s.last().server_id == sid {
            } else {
                assert forall|i: int, j: int| 0 <= i < j < out.len() implies out[i].key() != out[j].key() by {
                    if j < out.len() - 1 {
                        assert(out[i] == prev[i] && out[j] == prev[j]);
                    } else {
                        assert(out[j] == s.last());
                        assert(prev.contains(prev[i]));
                        assert(pre.contains(out[i]));
                        let w = choose|w: int| 0 <= w < pre.len() && pre[w] == out[i];
                        assert(s[w] == out[i]);
                        assert(s[w].key() != s[s.len() - 1].key());
                    }
                }
            }
        }
    }
}

/// The member identifiers of `adds` appended, in order, to `s` wherever they
/// are not already present.
pub open spec fn add_absent(s: Seq<u64>, adds: Seq<u64>) -> Seq<u64>
    decreases adds.len(),
{
    if adds.len() == 0 {
        s
    } else {
        let pre = add_absent(s, adds.drop_last());
        if pre.contains(adds.last()) {
            pre
        } else {
            pre.push(adds.last())
        }
    }
}

/// `s` with every identifier of `rems` dropped.
pub open spec fn drop_all(s: Seq<u64>, rems: Seq<u64>) -> Seq<u64>
    decreases s.len(),
{
    if s.len() == 0 {
        Seq::empty()
    } else {
        let pre = drop_all(s.drop_last(), rems);
        if rems.contains(s.last()) {
            pre
        } else {
            pre.push(s.last())
        }
    }
}

/// A thread-membership delta applied to a member set: additions first (those
/// not already present), removals second.
pub open spec fn delta_members(s: Seq<u64>, adds: Seq<u64>, rems: Seq<u64>) -> Seq<u64> {
    drop_all(add_absent(s, adds), rems)
}

pub proof fn lemma_add_absent(s: Seq<u64>, adds: Seq<u64>)
    ensures
        forall|x: u64| add_absent(s, adds).contains(x) <==> s.contains(x) || adds.contains(x),
        s.no_duplicates() ==> add_absent(s, adds).no_duplicates(),
    decreases adds.len(),
{
    let out = add_absent(s, adds);
    if adds.len() == 0 {
        assert(forall|x: u64| !adds.contains(x));
    } else {
        let atl = adds.drop_last();
        lemma_add_absent(s, atl);
        let pre = add_absent(s, atl);
        assert forall|x: u64| out.contains(x) <==> s.contains(x) || adds.contains(x) by {
            assert(adds.contains(x) <==> atl.contains(x) || x == adds.last()) by {
                if adds.contains(x) {
                    let w = choose|w: int| 0 <= w < adds.len() && adds[w] == x;
                    if w < adds.len() - 1 {
                        assert(atl[w] == x);
                    }
                }
                if atl.contains(x) {
                    let w = choose|w: int| 0 <= w < atl.len() && atl[w] == x;
                    assert(adds[w] == x);
                }
            }
            if pre.contains(adds.last()) {
            } else {
                assert(out == pre.push(adds.last()));
                if out.contains(x) {
                    let w = choose|w: int| 0 <= w < out.len() && out[w] == x;
                    if w < out.len() - 1 {
                        assert(pre.contains(x));
                    }
                }
                if pre.contains(x) {
                    let w = choose|w: int| 0 <= w < pre.len() && pre[w] == x;
                    assert(out[w] == x);
                }
                assert(out[out.len() - 1] == adds.last());
            }
        }
        if s.no_duplicates() {
            if pre.contains(adds.last()) {
            } else {
                assert(out == pre.push(adds.last()));
                assert forall|i: int, j: int| 0 <= i < j < out.len() implies out[i] != out[j] by {
                    if j < out.len() - 1 {
                    } else {
                        assert(pre.contains(pre[i]));
                    }
                }
            }
        }
    }
}

pub proof fn lemma_drop_all(s: Seq<u64>, rems: Seq<u64>)
    ensures
        forall|x: u64| drop_all(s, rems).contains(x) <==> s.contains(x) && !rems.contains(x),
        s.no_duplicates() ==> drop_all(s, rems).no_duplicates(),
    decreases s.len(),
{
    let out = drop_all(s, rems);
    if s.len() == 0 {
        assert(forall|x: u64| !s.contains(x));
    } else {
        let stl = s.drop_last();
        lemma_drop_all(stl, rems);
        let pre = drop_all(stl, rems);
        assert forall|x: u64| out.contains(x) <==> s.contains(x) && !rems.contains(x) by {
            assert(s.contains(x) <==> stl.contains(x) || x == s.last()) by {
                if s.contains(x) {
                    let w = choose|w: int| 0 <= w < s.len() && s[w] == x;
                    if w < s.len() - 1 {
                        assert(stl[w] == x);
                    }
                }
                if stl.contains(x) {
                    let w = choose|w: int| 0 <= w < stl.len() && stl[w] == x;
                    assert(s[w] == x);
                }
            }
            if rems.contains(s.last()) {
            } else {
                assert(out == pre.push(s.last()));
                if out.contains(x) {
                    let w = choose|w: int| 0 <= w < out.len() && out[w] == x;
                    if w < out.len() - 1 {
                        assert(pre.contains(x));
                    }
                }
                if pre.contains(x) {
                    let w = choose|w: int| 0 <= w < pre.len() && pre[w] == x;
                    assert(out[w] == x);
                }
                assert(out[out.len() - 1] == s.last());
            }
        }
        if s.no_duplicates() {
            assert(stl.no_duplicates());
            if rems.contains(s.last()) {
            } else {
                assert(out == pre.push(s.last()));
                assert forall|i: int, j: int| 0 <= i < j < out.len() implies out[i] != out[j] by {
                    if j < out.len() - 1 {
                    } else {
                        assert(pre.contains(pre[i]));
                        assert(stl.contains(out[i]));
                        let w = choose|w: int| 0 <= w < stl.len() && stl[w] == out[i];
                        assert(s[w] == out[i]);
                        assert(s[w] != s[s.len() - 1]);
                    }
                }
            }
        }
    }
}

/// A partial-field merge: a present field overwrites, an absent field
/// retains the prior value.
pub open spec fn merge_opt(new: Option<String>, cur: Option<String>) -> Option<String> {
    match new {
        Some(n) => Some(n),
        None => cur,
    }
}

/// A partial-field merge against a mandatory field.
pub open spec fn merge_str(new: Option<String>, cur: String) -> String {
    match new {
        Some(n) => n,
        None => cur,
    }
}

/// `m` with its display name replaced.
pub open spec fn with_name(m: ChannelModel, n: String) -> ChannelModel {
    ChannelModel {
        id: m.id,
        server_id: m.server_id,
        kind: m.kind,
        name: n,
        members: m.members,
        snapshot_time: m.snapshot_time,
    }
}

/// `m` re-homed and re-titled by a fresh channel payload, its member set
/// and snapshot time retained.
pub open spec fn with_payload(m: ChannelModel, server_id: u64, kind: ChannelKind, name: String) -> ChannelModel {
    ChannelModel {
        id: m.id,
        server_id: server_id,
        kind: kind,
        name: name,
        members: m.members,
        snapshot_time: m.snapshot_time,
    }
}

/// `m` with its member set replaced.
pub open spec fn with_members(m: ChannelModel, mem: Seq<u64>) -> ChannelModel {
    ChannelModel {
        id: m.id,
        server_id: m.server_id,
        kind: m.kind,
        name: m.name,
        members: mem,
        snapshot_time: m.snapshot_time,
    }
}

/// `m` refreshed by an authoritative membership snapshot taken at `t`.
pub open spec fn with_snapshot(m: ChannelModel, mem: Seq<u64>, t: u64) -> ChannelModel {
    ChannelModel {
        id: m.id,
        server_id: m.server_id,
        kind: m.kind,
        name: m.name,
        members: mem,
        snapshot_time: t,
    }
}

/// The identifiers of the channels owned by server `sid`, in store order.
pub open spec fn server_channel_ids(s: Seq<ChannelModel>, sid: u64) -> Seq<u64>
    decreases s.len(),
{
    if s.len() == 0 {
        Seq::empty()
    } else {
        let pre = server_channel_ids(s.drop_last(), sid);
        if s.last().server_id == sid {
            pre.push(s.last().id)
        } else {
            pre
        }
    }
}

/// The in-memory mirror of the remote object graph: the single source of
/// truth queried by the UI collaborator.
pub struct Store {
    pub servers: Vec<Server>,
    pub channels: Vec<Channel>,
    pub members: Vec<Member>,
}

/// Well-formedness of the object graph:
/// identifiers are unique per collection; every channel and every member
/// references a server present in the store; no channel or member lingers
/// under a removed server; a channel's member set holds no duplicates.
pub open spec fn store_wf(servers: Seq<Server>, channels: Seq<ChannelModel>, members: Seq<Member>) -> bool {
    &&& unique_keys(servers)
    &&& unique_keys(channels)
    &&& unique_keys(members)
    &&& forall|i: int| 0 <= i < channels.len() ==> {
        &&& has_rec(servers, #[trigger] channels[i].server_id)
        &&& rec_at(servers, channels[i].server_id).avail != Availability::Removed
    }
    &&& forall|i: int| 0 <= i < members.len() ==> {
        &&& has_rec(servers, #[trigger] members[i].server_id)
        &&& rec_at(servers, members[i].server_id).avail != Availability::Removed
    }
    &&& forall|i: int| 0 <= i < channels.len() ==> (#[trigger] channels[i].members).no_duplicates()
}

impl Store {
    /// The spec-level image of the channel collection.
    pub open spec fn chans(self) -> Seq<ChannelModel> {
        ch_models(self.channels@)
    }

    pub open spec fn wf(self) -> bool {
        store_wf(self.servers@, self.chans(), self.members@)
    }

    pub fn new() -> (s: Store)
        ensures
            s.wf(),
            s.servers@ == Seq::<Server>::empty(),
            s.chans() == Seq::<ChannelModel>::empty(),
            s.members@ == Seq::<Member>::empty(),
    {
        let s = Store { servers: Vec::new(), channels: Vec::new(), members: Vec::new() };
        proof {
            assert(s.chans() =~= Seq::<ChannelModel>::empty());
        }
        s
    }
}

/// Linear search for a server record by identifier.
pub fn find_server(v: &Vec<Server>, id: u64) -> (r: Option<usize>)
    ensures
        match r {
            Some(i) => i < v@.len() && v@[i as int].id == id,
            None => !has_rec(v@, id),
        },
{
    let mut i: usize = 0;
    while i < v.len()
        invariant
            i <= v@.len(),
            forall|j: int| 0 <= j < i ==> v@[j].id != id,
        decreases v@.len() - i,
    {
        if v[i].id == id {
            return Some(i);
        }
        i = i + 1;
    }
    None
}

/// Linear search for a channel record by identifier.
pub fn find_channel(v: &Vec<Channel>, id: u64) -> (r: Option<usize>)
    ensures
        match r {
            Some(i) => i < v@.len() && ch_models(v@)[i as int].id == id,
            None => !has_rec(ch_models(v@), id),
        },
{
    let mut i: usize = 0;
    while i < v.len()
        invariant
            i <= v@.len(),
            forall|j: int| 0 <= j < i ==> ch_models(v@)[j].id != id,
        decreases v@.len() - i,
    {
        if v[i].id == id {
            return Some(i);
        }
        i = i + 1;
    }
    None
}

/// Linear search for a member record by identifier.
pub fn find_member(v: &Vec<Member>, id: u64) -> (r: Option<usize>)
    ensures
        match r {
            Some(i) => i < v@.len() && v@[i as int].id == id,
            None => !has_rec(v@, id),
        },
{
    let mut i: usize = 0;
    while i < v.len()
        invariant
            i <= v@.len(),
            forall|j: int| 0 <= j < i ==> v@[j].id != id,
        decreases v@.len() - i,
    {
        if v[i].id == id {
            return Some(i);
        }
        i = i + 1;
    }
    None
}

impl Store {
    /// Create the server record, or replace the record sharing its
    /// identifier. Establishing a removed server is not an upsert but a new
    /// lifecycle, so the record carries a live availability.
    pub fn upsert_server(&mut self, rec: Server)
        requires
            old(self).wf(),
            rec.avail != Availability::Removed,
        ensures
            final(self).servers@ == upsert(old(self).servers@, rec),
            final(self).chans() == old(self).chans(),
            final(self).members@ == old(self).members@,
            final(self).wf(),
    {
        proof {
            lemma_upsert(self.servers@, rec);
        }
        match find_server(&self.servers, rec.id) {
            Some(i) => {
                proof {
                    lemma_idx_unique(self.servers@, rec.id, i as int);
                }
                self.servers[i] = rec;
            }
            None => {
                self.servers.push(rec);
            }
        }
        proof {
            let osv = old(self).servers@;
            let nsv = self.servers@;
            assert(nsv == upsert(osv, rec));
            assert forall|i: int| 0 <= i < self.chans().len() implies {
                &&& has_rec(nsv, #[trigger] self.chans()[i].server_id)
                &&& rec_at(nsv, self.chans()[i].server_id).avail != Availability::Removed
            } by {
                let sid = self.chans()[i].server_id;
                if sid == rec.id {
                } else {
                    assert(has_rec(osv, sid));
                }
            }
            assert forall|i: int| 0 <= i < self.members@.len() implies {
                &&& has_rec(nsv, #[trigger] self.members@[i].server_id)
                &&& rec_at(nsv, self.members@[i].server_id).avail != Availability::Removed
            } by {
                let sid = self.members@[i].server_id;
                if sid == rec.id {
                } else {
                    assert(has_rec(osv, sid));
                }
            }
        }
    }

    /// Record an availability transition that is not a removal: an outage
    /// retains the server's owned data. Unknown identifiers are left alone.
    pub fn set_server_availability(&mut self, id: u64, a: Availability)
        requires
            old(self).wf(),
            a != Availability::Removed,
        ensures
            final(self).servers@ == set_avail(old(self).servers@, id, a),
            final(self).chans() == old(self).chans(),
            final(self).members@ == old(self).members@,
            final(self).wf(),
    {
        match find_server(&self.servers, id) {
            Some(i) => {
                proof {
                    lemma_idx_unique(self.servers@, id, i as int);
                    lemma_upsert(self.servers@, Server { id: id, name: rec_at(self.servers@, id).name, avail: a });
                }
                self.servers[i].avail = a;
                proof {
                    let osv = old(self).servers@;
                    let nsv = self.servers@;
                    assert(nsv == upsert(osv, Server { id: id, name: rec_at(osv, id).name, avail: a }));
                    assert(nsv == set_avail(osv, id, a));
                    assert forall|j: int| 0 <= j < self.chans().len() implies {
                        &&& has_rec(nsv, #[trigger] self.chans()[j].server_id)
                        &&& rec_at(nsv, self.chans()[j].server_id).avail != Availability::Removed
                    } by {
                        let sid = self.chans()[j].server_id;
                        if sid == id {
                        } else {
                            assert(has_rec(osv, sid));
                        }
                    }
                    assert forall|j: int| 0 <= j < self.members@.len() implies {
                        &&& has_rec(nsv, #[trigger] self.members@[j].server_id)
                        &&& rec_at(nsv, self.members@[j].server_id).avail != Availability::Removed
                    } by {
                        let sid = self.members@[j].server_id;
                        if sid == id {
                        } else {
                            assert(has_rec(osv, sid));
                        }
                    }
                }
            }
            None => {}
        }
    }

    /// Create or replace a channel record. The owning server must be live:
    /// the reconciler establishes a placeholder first when it is not.
    pub fn upsert_channel(&mut self, rec: Channel)
        requires
            old(self).wf(),
            has_rec(old(self).servers@, rec.server_id),
            rec_at(old(self).servers@, rec.server_id).avail != Availability::Removed,
            rec.members@.no_duplicates(),
        ensures
            final(self).chans() == upsert(old(self).chans(), rec@),
            final(self).servers@ == old(self).servers@,
            final(self).members@ == old(self).members@,
            final(self).wf(),
    {
        proof {
            lemma_upsert(self.chans(), rec@);
        }
        match find_channel(&self.channels, rec.id) {
            Some(i) => {
                proof {
                    lemma_idx_unique(self.chans(), rec@.id, i as int);
                    lemma_ch_models_update(self.channels@, i as int, rec);
                }
                self.channels[i] = rec;
            }
            None => {
                proof {
                    lemma_ch_models_push(self.channels@, rec);
                }
                self.channels.push(rec);
            }
        }
        proof {
            let och = old(self).chans();
            let nch = self.chans();
            assert(nch == upsert(och, rec@));
            let osv = self.servers@;
            assert forall|j: int| 0 <= j < nch.len() implies {
                &&& has_rec(osv, #[trigger] nch[j].server_id)
                &&& rec_at(osv, nch[j].server_id).avail != Availability::Removed
                &&& nch[j].members.no_duplicates()
            } by {
                if has_rec(och, rec@.id) {
                    let u = idx_of(och, rec@.id);
                    assert(nch[j] == if j == u { rec@ } else { och[j] });
                } else {
                    assert(nch[j] == if j == och.len() { rec@ } else { och[j] });
                }
            }
        }
    }

    /// Create or replace a member record on its server's roster.
    pub fn upsert_member(&mut self, rec: Member)
        requires
            old(self).wf(),
            has_rec(old(self).servers@, rec.server_id),
            rec_at(old(self).servers@, rec.server_id).avail != Availability::Removed,
        ensures
            final(self).members@ == upsert(old(self).members@, rec),
            final(self).servers@ == old(self).servers@,
            final(self).chans() == old(self).chans(),
            final(self).wf(),
    {
        proof {
            lemma_upsert(self.members@, rec);
        }
        match find_member(&self.members, rec.id) {
            Some(i) => {
                proof {
                    lemma_idx_unique(self.members@, rec.id, i as int);
                }
                self.members[i] = rec;
            }
            None => {
                self.members.push(rec);
            }
        }
        proof {
            let omb = old(self).members@;
            let nmb = self.members@;
            assert(nmb == upsert(omb, rec));
            let osv = self.servers@;
            assert forall|j: int| 0 <= j < nmb.len() implies {
                &&& has_rec(osv, #[trigger] nmb[j].server_id)
                &&& rec_at(osv, nmb[j].server_id).avail != Availability::Removed
            } by {
                if has_rec(omb, rec.id) {
                    let u = idx_of(omb, rec.id);
                    assert(nmb[j] == if j == u { rec } else { omb[j] });
                } else {
                    assert(nmb[j] == if j == omb.len() { rec } else { omb[j] });
                }
            }
        }
    }
}

impl Store {
    /// A confirmed delete of server `id`: the record becomes `Removed`
    /// (terminal for this lifecycle) and every channel and member it owned is
    /// released. Removing an unknown server is a no-op.
    pub fn remove_server(&mut self, id: u64)
        requires
            old(self).wf(),
        ensures
            final(self).servers@ == set_avail(old(self).servers@, id, Availability::Removed),
            final(self).chans() == channels_not_of(old(self).chans(), id),
            final(self).members@ == members_not_of(old(self).members@, id),
            final(self).wf(),
    {
        match find_server(&self.servers, id) {
            Some(i) => {
                proof {
                    lemma_idx_unique(self.servers@, id, i as int);
                    lemma_upsert(self.servers@, Server { id: id, name: rec_at(self.servers@, id).name, avail: Availability::Removed });
                }
                self.servers[i].avail = Availability::Removed;
            }
            None => {}
        }
        proof {
            assert(self.servers@ == set_avail(old(self).servers@, id, Availability::Removed));
        }
        let mut work: Vec<Channel> = Vec::new();
        core::mem::swap(&mut work, &mut self.channels);
        let ghost worig: Seq<Channel> = work@;
        let ghost morig: Seq<ChannelModel> = ch_models(worig);
        let mut kept: Vec<Channel> = Vec::new();
        let n = work.len();
        let mut j: usize = 0;
        while j < n
            invariant
                n == worig.len(),
                j <= n,
                morig == ch_models(worig),
                work@ == worig.skip(j as int),
                ch_models(kept@) == channels_not_of(morig.take(j as int), id),
            decreases n - j,
        {
            proof {
                assert(morig.len() == worig.len());
                assert(work@[0] == worig[j as int]);
                assert(worig.skip(j as int).remove(0) =~= worig.skip(j as int + 1));
                assert(morig.take(j as int + 1).drop_last() =~= morig.take(j as int));
                assert(morig.take(j as int + 1).last() == morig[j as int]);
            }
            let c = work.remove(0);
            if c.server_id == id {
            } else {
                proof {
                    lemma_ch_models_push(kept@, c);
                }
                kept.push(c);
            }
            j = j + 1;
        }
        proof {
            lemma_take_all(morig);
        }
        self.channels = kept;
        let mut mwork: Vec<Member> = Vec::new();
        core::mem::swap(&mut mwork, &mut self.members);
        let ghost mborig: Seq<Member> = mwork@;
        let mut mkept: Vec<Member> = Vec::new();
        let mn = mwork.len();
        let mut t: usize = 0;
        while t < mn
            invariant
                mn == mborig.len(),
                t <= mn,
                mwork@ == mborig.skip(t as int),
                mkept@ == members_not_of(mborig.take(t as int), id),
            decreases mn - t,
        {
            proof {
                assert(mwork@[0] == mborig[t as int]);
                assert(mborig.skip(t as int).remove(0) =~= mborig.skip(t as int + 1));
                assert(mborig.take(t as int + 1).drop_last() =~= mborig.take(t as int));
                assert(mborig.take(t as int + 1).last() == mborig[t as int]);
            }
            let m = mwork.remove(0);
            if m.server_id == id {
            } else {
                mkept.push(m);
            }
            t = t + 1;
        }
        proof {
            lemma_take_all(mborig);
        }
        self.members = mkept;
        proof {
            let osv = old(self).servers@;
            let nsv = self.servers@;
            let och = old(self).chans();
            let nch = self.chans();
            let omb = old(self).members@;
            let nmb = self.members@;
            assert(nch == channels_not_of(och, id));
            assert(nmb == members_not_of(omb, id));
            lemma_channels_not_of(och, id);
            lemma_members_not_of(omb, id);
            assert forall|w: int| 0 <= w < nch.len() implies {
                &&& has_rec(nsv, #[trigger] nch[w].server_id)
                &&& rec_at(nsv, nch[w].server_id).avail != Availability::Removed
                &&& nch[w].members.no_duplicates()
            } by {
                assert(nch.contains(nch[w]));
                assert(och.contains(nch[w]) && nch[w].server_id != id);
                let u = choose|u: int| 0 <= u < och.len() && och[u] == nch[w];
                assert(has_rec(osv, och[u].server_id));
                assert(och[u].members.no_duplicates());
            }
            assert forall|w: int| 0 <= w < nch.len() implies (#[trigger] nch[w].members).no_duplicates() by {
                assert(nch.contains(nch[w]));
                assert(och.contains(nch[w]) && nch[w].server_id != id);
                let u = choose|u: int| 0 <= u < och.len() && och[u] == nch[w];
                assert(och[u].members.no_duplicates());
            }
            assert forall|w: int| 0 <= w < nmb.len() implies {
                &&& has_rec(nsv, #[trigger] nmb[w].server_id)
                &&& rec_at(nsv, nmb[w].server_id).avail != Availability::Removed
            } by {
                assert(nmb.contains(nmb[w]));
                assert(omb.contains(nmb[w]) && nmb[w].server_id != id);
                let u = choose|u: int| 0 <= u < omb.len() && omb[u] == nmb[w];
                assert(has_rec(osv, omb[u].server_id));
            }
        }
    }

    /// Drop a channel (or thread) record; dropping an unknown identifier is
    /// a no-op, because the event source may redeliver deletions.
    pub fn remove_channel(&mut self, id: u64)
        requires
            old(self).wf(),
        ensures
            final(self).chans() == remove_rec(old(self).chans(), id),
            final(self).servers@ == old(self).servers@,
            final(self).members@ == old(self).members@,
            final(self).wf(),
    {
        proof {
            lemma_remove(self.chans(), id);
        }
        match find_channel(&self.channels, id) {
            Some(i) => {
                proof {
                    lemma_idx_unique(self.chans(), id, i as int);
                    lemma_ch_models_remove(self.channels@, i as int);
                }
                self.channels.remove(i);
                proof {
                    let och = old(self).chans();
                    let nch = self.chans();
                    assert(nch == remove_rec(och, id));
                    assert forall|w: int| 0 <= w < nch.len() implies {
                        &&& has_rec(self.servers@, #[trigger] nch[w].server_id)
                        &&& rec_at(self.servers@, nch[w].server_id).avail != Availability::Removed
                        &&& nch[w].members.no_duplicates()
                    } by {
                        assert(nch[w] == if w < i as int { och[w] } else { och[w + 1] });
                    }
                }
            }
            None => {}
        }
    }

    /// Apply an advisory thread-membership delta to the thread's member set:
    /// additions not already present are appended, removals are dropped.
    /// The membership snapshot time is untouched: a delta is not a snapshot.
    pub fn apply_thread_membership_delta(&mut self, thread_id: u64, adds: &Vec<u64>, rems: &Vec<u64>)
        requires
            old(self).wf(),
            has_rec(old(self).chans(), thread_id),
        ensures
            final(self).chans() == upsert(old(self).chans(),
                with_members(rec_at(old(self).chans(), thread_id),
                    delta_members(rec_at(old(self).chans(), thread_id).members, adds@, rems@))),
            final(self).servers@ == old(self).servers@,
            final(self).members@ == old(self).members@,
            final(self).wf(),
    {
        let i = match find_channel(&self.channels, thread_id) {
            Some(i) => i,
            None => {
                proof {
                    assert(false);
                }
                0
            }
        };
        proof {
            lemma_idx_unique(self.chans(), thread_id, i as int);
        }
        let ghost m = rec_at(self.chans(), thread_id);
        let ghost base = m.members;
        let mut mem: Vec<u64> = Vec::new();
        let cur_len = self.channels[i].members.len();
        let mut j: usize = 0;
        while j < cur_len
            invariant
                j <= cur_len,
                i < self.channels@.len(),
                base == self.channels@[i as int].members@,
                cur_len == base.len(),
                mem@ == base.take(j as int),
            decreases cur_len - j,
        {
            let x = self.channels[i].members[j];
            mem.push(x);
            proof {
                assert(base.take(j as int + 1) =~= base.take(j as int).push(base[j as int]));
            }
            j = j + 1;
        }
        proof {
            lemma_take_all(base);
        }
        let mut k: usize = 0;
        while k < adds.len()
            invariant
                k <= adds@.len(),
                mem@ == add_absent(base, adds@.take(k as int)),
            decreases adds@.len() - k,
        {
            let x = adds[k];
            proof {
                assert(adds@.take(k as int + 1).drop_last() =~= adds@.take(k as int));
                assert(adds@.take(k as int + 1).last() == adds@[k as int]);
            }
            if !contains_id(&mem, x) {
                mem.push(x);
            }
            k = k + 1;
        }
        proof {
            lemma_take_all(adds@);
            assert(mem@ == add_absent(base, adds@));
        }
        let mut out: Vec<u64> = Vec::new();
        let mlen = mem.len();
        let mut t: usize = 0;
        while t < mlen
            invariant
                t <= mlen,
                mlen == mem@.len(),
                out@ == drop_all(mem@.take(t as int), rems@),
            decreases mlen - t,
        {
            let x = mem[t];
            proof {
                assert(mem@.take(t as int + 1).drop_last() =~= mem@.take(t as int));
                assert(mem@.take(t as int + 1).last() == mem@[t as int]);
            }
            if !contains_id(rems, x) {
                out.push(x);
            }
            t = t + 1;
        }
        proof {
            lemma_take_all(mem@);
            assert(out@ == delta_members(base, adds@, rems@));
        }
        self.channels[i].members = out;
        proof {
            let och = old(self).chans();
            let newm = with_members(m, delta_members(base, adds@, rems@));
            lemma_upsert(och, newm);
            lemma_idx_props(och, thread_id);
            assert(self.chans() =~= och.update(i as int, newm));
            assert(upsert(och, newm) == och.update(i as int, newm));
            let nch = self.chans();
            assert forall|w: int| 0 <= w < nch.len() implies {
                &&& has_rec(self.servers@, #[trigger] nch[w].server_id)
                &&& rec_at(self.servers@, nch[w].server_id).avail != Availability::Removed
                &&& nch[w].members.no_duplicates()
            } by {
                assert(nch[w] == if w == i as int { newm } else { och[w] });
                if w == i as int {
                    assert(och[w].members.no_duplicates());
                    lemma_add_absent(base, adds@);
                    lemma_drop_all(add_absent(base, adds@), rems@);
                }
            }
            assert forall|w: int| 0 <= w < nch.len() implies (#[trigger] nch[w].members).no_duplicates() by {
                assert(nch[w] == if w == i as int { newm } else { och[w] });
                if w == i as int {
                    assert(och[w].members.no_duplicates());
                    lemma_add_absent(base, adds@);
                    lemma_drop_all(add_absent(base, adds@), rems@);
                }
            }
        }
    }

    /// Install an authoritative membership snapshot, fetched out of band,
    /// replacing the advisory member set and stamping its snapshot time.
    pub fn set_thread_snapshot(&mut self, thread_id: u64, mems: Vec<u64>, now: u64)
        requires
            old(self).wf(),
            has_rec(old(self).chans(), thread_id),
            mems@.no_duplicates(),
        ensures
            final(self).chans() == upsert(old(self).chans(),
                with_snapshot(rec_at(old(self).chans(), thread_id), mems@, now)),
            final(self).servers@ == old(self).servers@,
            final(self).members@ == old(self).members@,
            final(self).wf(),
    {
        let i = match find_channel(&self.channels, thread_id) {
            Some(i) => i,
            None => {
                proof {
                    assert(false);
                }
                0
            }
        };
        proof {
            lemma_idx_unique(self.chans(), thread_id, i as int);
        }
        let ghost m = rec_at(self.chans(), thread_id);
        self.channels[i].members = mems;
        self.channels[i].snapshot_time = now;
        proof {
            let och = old(self).chans();
            let newm = with_snapshot(m, mems@, now);
            lemma_upsert(och, newm);
            lemma_idx_props(och, thread_id);
            assert(self.chans() =~= och.update(i as int, newm));
            assert(upsert(och, newm) == och.update(i as int, newm));
            let nch = self.chans();
            assert forall|w: int| 0 <= w < nch.len() implies {
                &&& has_rec(self.servers@, #[trigger] nch[w].server_id)
                &&& rec_at(self.servers@, nch[w].server_id).avail != Availability::Removed
                &&& nch[w].members.no_duplicates()
            } by {
                assert(nch[w] == if w == i as int { newm } else { och[w] });
            }
        }
    }

    /// Merge a partial server update into an existing live record: a
    /// present name overwrites, an absent one retains the prior value, and
    /// the availability is untouched.
    pub fn patch_server_name(&mut self, id: u64, name: Option<String>)
        requires
            old(self).wf(),
            has_rec(old(self).servers@, id),
            rec_at(old(self).servers@, id).avail != Availability::Removed,
        ensures
            final(self).servers@ == upsert(old(self).servers@,
                Server {
                    id: id,
                    name: merge_opt(name, rec_at(old(self).servers@, id).name),
                    avail: rec_at(old(self).servers@, id).avail,
                }),
            final(self).chans() == old(self).chans(),
            final(self).members@ == old(self).members@,
            final(self).wf(),
    {
        let i = match find_server(&self.servers, id) {
            Some(i) => i,
            None => {
                proof {
                    assert(false);
                }
                0
            }
        };
        proof {
            lemma_idx_unique(self.servers@, id, i as int);
            lemma_idx_props(self.servers@, id);
            lemma_upsert(self.servers@, Server {
                id: id,
                name: merge_opt(name, rec_at(self.servers@, id).name),
                avail: rec_at(self.servers@, id).avail,
            });
        }
        match name {
            Some(n) => {
                self.servers[i].name = Some(n);
            }
            None => {}
        }
        proof {
            let osv = old(self).servers@;
            let newr = Server { id: id, name: merge_opt(name, rec_at(osv, id).name), avail: rec_at(osv, id).avail };
            assert(self.servers@ =~= osv.update(i as int, newr));
            assert(upsert(osv, newr) == osv.update(i as int, newr));
            let nsv = self.servers@;
            assert forall|j: int| 0 <= j < self.chans().len() implies {
                &&& has_rec(nsv, #[trigger] self.chans()[j].server_id)
                &&& rec_at(nsv, self.chans()[j].server_id).avail != Availability::Removed
            } by {
                let sid = self.chans()[j].server_id;
                if sid == id {
                } else {
                    assert(has_rec(osv, sid));
                }
            }
            assert forall|j: int| 0 <= j < self.members@.len() implies {
                &&& has_rec(nsv, #[trigger] self.members@[j].server_id)
                &&& rec_at(nsv, self.members@[j].server_id).avail != Availability::Removed
            } by {
                let sid = self.members@[j].server_id;
                if sid == id {
                } else {
                    assert(has_rec(osv, sid));
                }
            }
        }
    }

    /// Merge a partial channel update into an existing record: a present
    /// name overwrites, everything else retains its prior value.
    pub fn patch_channel_name(&mut self, id: u64, name: Option<String>)
        requires
            old(self).wf(),
            has_rec(old(self).chans(), id),
        ensures
            final(self).chans() == upsert(old(self).chans(),
                with_name(rec_at(old(self).chans(), id),
                    merge_str(name, rec_at(old(self).chans(), id).name))),
            final(self).servers@ == old(self).servers@,
            final(self).members@ == old(self).members@,
            final(self).wf(),
    {
        let i = match find_channel(&self.channels, id) {
            Some(i) => i,
            None => {
                proof {
                    assert(false);
                }
                0
            }
        };
        proof {
            lemma_idx_unique(self.chans(), id, i as int);
            lemma_idx_props(self.chans(), id);
        }
        let ghost m = rec_at(self.chans(), id);
        match name {
            Some(n) => {
                self.channels[i].name = n;
            }
            None => {}
        }
        proof {
            let och = old(self).chans();
            let newm = with_name(m, merge_str(name, m.name));
            lemma_upsert(och, newm);
            assert(self.chans() =~= och.update(i as int, newm));
            assert(upsert(och, newm) == och.update(i as int, newm));
            let nch = self.chans();
            assert forall|w: int| 0 <= w < nch.len() implies {
                &&& has_rec(self.servers@, #[trigger] nch[w].server_id)
                &&& rec_at(self.servers@, nch[w].server_id).avail != Availability::Removed
            } by {
                assert(nch[w] == if w == i as int { newm } else { och[w] });
            }
            assert forall|w: int| 0 <= w < nch.len() implies (#[trigger] nch[w].members).no_duplicates() by {
                assert(nch[w] == if w == i as int { newm } else { och[w] });
            }
        }
    }

    /// Re-apply a full channel payload to an existing record, keeping its
    /// member set and membership snapshot time: lifecycle payloads carry no
    /// membership, which converges by delta and repair instead.
    pub fn patch_channel_payload(&mut self, id: u64, server_id: u64, kind: ChannelKind, name: String)
        requires
            old(self).wf(),
            has_rec(old(self).chans(), id),
            has_rec(old(self).servers@, server_id),
            rec_at(old(self).servers@, server_id).avail != Availability::Removed,
        ensures
            final(self).chans() == upsert(old(self).chans(),
                with_payload(rec_at(old(self).chans(), id), server_id, kind, name)),
            final(self).servers@ == old(self).servers@,
            final(self).members@ == old(self).members@,
            final(self).wf(),
    {
        let i = match find_channel(&self.channels, id) {
            Some(i) => i,
            None => {
                proof {
                    assert(false);
                }
                0
            }
        };
        proof {
            lemma_idx_unique(self.chans(), id, i as int);
            lemma_idx_props(self.chans(), id);
        }
        let ghost m = rec_at(self.chans(), id);
        self.channels[i].server_id = server_id;
        self.channels[i].kind = kind;
        self.channels[i].name = name;
        proof {
            let och = old(self).chans();
            let newm = with_payload(m, server_id, kind, name);
            lemma_upsert(och, newm);
            assert(self.chans() =~= och.update(i as int, newm));
            assert(upsert(och, newm) == och.update(i as int, newm));
            let nch = self.chans();
            assert forall|w: int| 0 <= w < nch.len() implies {
                &&& has_rec(self.servers@, #[trigger] nch[w].server_id)
                &&& rec_at(self.servers@, nch[w].server_id).avail != Availability::Removed
            } by {
                assert(nch[w] == if w == i as int { newm } else { och[w] });
            }
            assert forall|w: int| 0 <= w < nch.len() implies (#[trigger] nch[w].members).no_duplicates() by {
                assert(nch[w] == if w == i as int { newm } else { och[w] });
            }
        }
    }

    /// Read a server record, if one is present.
    pub fn get_server(&self, id: u64) -> (r: Option<&Server>)
        requires
            self.wf(),
        ensures
            match r {
                Some(s) => has_rec(self.servers@, id) && *s == rec_at(self.servers@, id),
                None => !has_rec(self.servers@, id),
            },
    {
        match find_server(&self.servers, id) {
            Some(i) => {
                proof {
                    lemma_idx_unique(self.servers@, id, i as int);
                }
                Some(&self.servers[i])
            }
            None => None,
        }
    }

    /// Read a channel record, if one is present.
    pub fn get_channel(&self, id: u64) -> (r: Option<&Channel>)
        requires
            self.wf(),
        ensures
            match r {
                Some(c) => has_rec(self.chans(), id) && c@ == rec_at(self.chans(), id),
                None => !has_rec(self.chans(), id),
            },
    {
        match find_channel(&self.channels, id) {
            Some(i) => {
                proof {
                    lemma_idx_unique(self.chans(), id, i as int);
                }
                Some(&self.channels[i])
            }
            None => None,
        }
    }

    /// The identifiers of the channels owned by server `sid`, in store order.
    pub fn list_channels_of(&self, sid: u64) -> (r: Vec<u64>)
        ensures
            r@ == server_channel_ids(self.chans(), sid),
    {
        let mut r: Vec<u64> = Vec::new();
        let n = self.channels.len();
        let mut j: usize = 0;
        while j < n
            invariant
                n == self.channels@.len(),
                j <= n,
                r@ == server_channel_ids(self.chans().take(j as int), sid),
            decreases n - j,
        {
            proof {
                assert(self.chans().take(j as int + 1).drop_last() =~= self.chans().take(j as int));
                assert(self.chans().take(j as int + 1).last() == self.chans()[j as int]);
            }
            if self.channels[j].server_id == sid {
                let x = self.channels[j].id;
                r.push(x);
            }
            j = j + 1;
        }
        proof {
            lemma_take_all(self.chans());
        }
        r
    }

    /// A snapshot of a thread's member set, or `None` for an absent thread.
    pub fn list_members_of(&self, thread_id: u64) -> (r: Option<Vec<u64>>)
        requires
            self.wf(),
        ensures
            match r {
                Some(v) => has_rec(self.chans(), thread_id) && v@ == rec_at(self.chans(), thread_id).members,
                None => !has_rec(self.chans(), thread_id),
            },
    {
        match find_channel(&self.channels, thread_id) {
            Some(i) => {
                proof {
                    lemma_idx_unique(self.chans(), thread_id, i as int);
                }
                let mut v: Vec<u64> = Vec::new();
                let n = self.channels[i].members.len();
                let mut j: usize = 0;
                while j < n
                    invariant
                        i < self.channels@.len(),
                        n == self.channels@[i as int].members@.len(),
                        j <= n,
                        v@ == self.channels@[i as int].members@.take(j as int),
                    decreases n - j,
                {
                    let x = self.channels[i].members[j];
                    v.push(x);
                    proof {
                        let mseq = self.channels@[i as int].members@;
                        assert(mseq.take(j as int + 1) =~= mseq.take(j as int).push(mseq[j as int]));
                    }
                    j = j + 1;
                }
                proof {
                    lemma_take_all(self.channels@[i as int].members@);
                }
                Some(v)
            }
            None => None,
        }
    }
}

/// Linear membership test on a vector of identifiers.
pub fn contains_id(v: &Vec<u64>, x: u64) -> (b: bool)
    ensures
        b == v@.contains(x),
{
    let mut i: usize = 0;
    while i < v.len()
        invariant
            i <= v@.len(),
            forall|j: int| 0 <= j < i ==> v@[j] != x,
        decreases v@.len() - i,
    {
        if v[i] == x {
            assert(v@[i as int] == x);
            return true;
        }
        i = i + 1;
    }
    assert(!v@.contains(x));
    false
}

} // verus!
