//! A small theory of sequences of records addressed by a `u64` key.
//!
//! The object graph store keeps each object collection as a vector of
//! records with unique identifiers.  The spec-level transitions (`upsert`,
//! `remove_rec`) and the lemmas below are shared by servers, channels and
//! members alike.

use vstd::prelude::*;

verus! {

/// A record that carries its own identifier.
pub trait Keyed: Sized {
    spec fn key(self) -> u64;
}

/// Some record in `s` has key `k`.
pub open spec fn has_rec<T: Keyed>(s: Seq<T>, k: u64) -> bool {
    exists|i: int| 0 <= i < s.len() && s[i].key() == k
}

/// The index of the record with key `k` (meaningful only when `has_rec`).
pub open spec fn idx_of<T: Keyed>(s: Seq<T>, k: u64) -> int {
    choose|i: int| 0 <= i < s.len() && s[i].key() == k
}

/// The record with key `k` (meaningful only when `has_rec`).
pub open spec fn rec_at<T: Keyed>(s: Seq<T>, k: u64) -> T {
    s[idx_of(s, k)]
}

/// No two records share a key.
pub open spec fn unique_keys<T: Keyed>(s: Seq<T>) -> bool {
    forall|i: int, j: int| 0 <= i < j < s.len() ==> s[i].key() != s[j].key()
}

/// Replace the record keyed like `r` if one exists, else append `r`.
pub open spec fn upsert<T: Keyed>(s: Seq<T>, r: T) -> Seq<T> {
    if has_rec(s, r.key()) {
        s.update(idx_of(s, r.key()), r)
    } else {
        s.push(r)
    }
}

/// Drop the record with key `k` if one exists; dropping an absent key is a
/// no-op, because the event source may redeliver removals.
pub open spec fn remove_rec<T: Keyed>(s: Seq<T>, k: u64) -> Seq<T> {
    if has_rec(s, k) {
        s.remove(idx_of(s, k))
    } else {
        s
    }
}

/// Under unique keys the witness index is determined.
pub proof fn lemma_idx_unique<T: Keyed>(s: Seq<T>, k: u64, i: int)
    requires
        unique_keys(s),
        0 <= i < s.len(),
        s[i].key() == k,
    ensures
        has_rec(s, k),
        idx_of(s, k) == i,
        rec_at(s, k) == s[i],
{
    assert(has_rec(s, k));
    let j = idx_of(s, k);
    assert(0 <= j < s.len() && s[j].key() == k);
    if i != j {
        assert(s[i].key() != s[j].key());
    }
}

/// Basic facts about the chosen index when a record is present.
pub proof fn lemma_idx_props<T: Keyed>(s: Seq<T>, k: u64)
    requires
        has_rec(s, k),
    ensures
        0 <= idx_of(s, k) < s.len(),
        s[idx_of(s, k)].key() == k,
        rec_at(s, k).key() == k,
{
}

/// `upsert` keeps keys unique and acts pointwise as a map update.
pub proof fn lemma_upsert<T: Keyed>(s: Seq<T>, r: T)
    requires
        unique_keys(s),
    ensures
        unique_keys(upsert(s, r)),
        has_rec(upsert(s, r), r.key()),
        rec_at(upsert(s, r), r.key()) == r,
        forall|k: u64| k != r.key() ==> has_rec(upsert(s, r), k) == has_rec(s, k),
        forall|k: u64| k != r.key() && has_rec(s, k) ==> rec_at(upsert(s, r), k) == rec_at(s, k),
{
    let out = upsert(s, r);
    if has_rec(s, r.key()) {
        let i = idx_of(s, r.key());
        lemma_idx_props(s, r.key());
        assert(out == s.update(i, r));
        assert forall|p: int, q: int| 0 <= p < q < out.len() implies out[p].key() != out[q].key() by {
            assert(out[p] == if p == i { r } else { s[p] });
            assert(out[q] == if q == i { r } else { s[q] });
        }
        lemma_idx_unique(out, r.key(), i);
        assert forall|k: u64| k != r.key() implies has_rec(out, k) == has_rec(s, k) by {
            if has_rec(s, k) {
                let w = idx_of(s, k);
                assert(w != i);
                assert(out[w].key() == k);
            }
            if has_rec(out, k) {
                let w = idx_of(out, k);
                assert(w != i);
                assert(s[w].key() == k);
            }
        }
        assert forall|k: u64| k != r.key() && has_rec(s, k) implies rec_at(out, k) == rec_at(s, k) by {
            let w = idx_of(s, k);
            lemma_idx_props(s, k);
            assert(w != i);
            assert(out[w] == s[w]);
            lemma_idx_unique(out, k, w);
        }
    } else {
        assert(out == s.push(r));
        assert forall|p: int, q: int| 0 <= p < q < out.len() implies out[p].key() != out[q].key() by {
            if q == s.len() as int {
                assert(out[q] == r);
                assert(out[p] == s[p]);
                assert(!(s[p].key() == r.key())) by {
                    if s[p].key() == r.key() {
                        assert(has_rec(s, r.key()));
                    }
                }
            } else {
                assert(out[p] == s[p] && out[q] == s[q]);
            }
        }
        lemma_idx_unique(out, r.key(), s.len() as int);
        assert forall|k: u64| k != r.key() implies has_rec(out, k) == has_rec(s, k) by {
            if has_rec(s, k) {
                let w = idx_of(s, k);
                assert(out[w].key() == k);
            }
            if has_rec(out, k) {
                let w = idx_of(out, k);
                assert(w != s.len() as int);
                assert(s[w].key() == k);
            }
        }
        assert forall|k: u64| k != r.key() && has_rec(s, k) implies rec_at(out, k) == rec_at(s, k) by {
            let w = idx_of(s, k);
            lemma_idx_props(s, k);
            assert(out[w] == s[w]);
            lemma_idx_unique(out, k, w);
        }
    }
}

/// Re-applying an `upsert` with the same record changes nothing further.
pub proof fn lemma_upsert_idempotent<T: Keyed>(s: Seq<T>, r: T)
    requires
        unique_keys(s),
    ensures
        upsert(upsert(s, r), r) == upsert(s, r),
{
    let once = upsert(s, r);
    lemma_upsert(s, r);
    let i = idx_of(once, r.key());
    lemma_idx_props(once, r.key());
    assert(once[i] == r);
    assert(upsert(once, r) == once.update(i, r));
    assert(once.update(i, r) =~= once);
}

/// Two upserts of records sharing a key collapse to the second alone.
pub proof fn lemma_upsert_absorb<T: Keyed>(s: Seq<T>, r1: T, r2: T)
    requires
        unique_keys(s),
        r1.key() == r2.key(),
    ensures
        upsert(upsert(s, r1), r2) == upsert(s, r2),
{
    lemma_upsert(s, r1);
    let s1 = upsert(s, r1);
    if has_rec(s, r1.key()) {
        let i = idx_of(s, r1.key());
        lemma_idx_props(s, r1.key());
        lemma_idx_unique(s1, r2.key(), i);
        assert(upsert(s1, r2) == s1.update(i, r2));
        assert(s1.update(i, r2) =~= s.update(i, r2));
    } else {
        let n = s.len() as int;
        lemma_idx_unique(s1, r2.key(), n);
        assert(upsert(s1, r2) == s1.update(n, r2));
        assert(s1.update(n, r2) =~= s.push(r2));
    }
}

/// `remove_rec` keeps keys unique and acts pointwise as a map removal.
pub proof fn lemma_remove<T: Keyed>(s: Seq<T>, k: u64)
    requires
        unique_keys(s),
    ensures
        unique_keys(remove_rec(s, k)),
        !has_rec(remove_rec(s, k), k),
        forall|k2: u64| k2 != k ==> has_rec(remove_rec(s, k), k2) == has_rec(s, k2),
        forall|k2: u64| k2 != k && has_rec(s, k2) ==> rec_at(remove_rec(s, k), k2) == rec_at(s, k2),
{
    let out = remove_rec(s, k);
    if has_rec(s, k) {
        let i = idx_of(s, k);
        lemma_idx_props(s, k);
        assert(out == s.remove(i));
        assert forall|p: int, q: int| 0 <= p < q < out.len() implies out[p].key() != out[q].key() by {
            assert(out[p] == if p < i { s[p] } else { s[p + 1] });
            assert(out[q] == if q < i { s[q] } else { s[q + 1] });
        }
        assert forall|k2: u64| !(k2 == k && has_rec(out, k2)) by {
            if k2 == k && has_rec(out, k2) {
                let w = idx_of(out, k2);
                assert(out[w] == if w < i { s[w] } else { s[w + 1] });
                let orig = if w < i { w } else { w + 1 };
                assert(s[orig].key() == k && orig != i);
                assert(s[i].key() == k);
            }
        }
        assert forall|k2: u64| k2 != k implies has_rec(out, k2) == has_rec(s, k2) by {
            if has_rec(s, k2) {
                let w = idx_of(s, k2);
                lemma_idx_props(s, k2);
                assert(w != i);
                if w < i {
                    assert(out[w].key() == k2);
                } else {
                    assert(out[w - 1].key() == k2);
                }
            }
            if has_rec(out, k2) {
                let w = idx_of(out, k2);
                assert(out[w] == if w < i { s[w] } else { s[w + 1] });
                let orig = if w < i { w } else { w + 1 };
                assert(s[orig].key() == k2);
            }
        }
        assert forall|k2: u64| k2 != k && has_rec(s, k2) implies rec_at(out, k2) == rec_at(s, k2) by {
            let w = idx_of(s, k2);
            lemma_idx_props(s, k2);
            assert(w != i);
            if w < i {
                assert(out[w] == s[w]);
                lemma_idx_unique(out, k2, w);
            } else {
                assert(out[w - 1] == s[w]);
                lemma_idx_unique(out, k2, w - 1);
            }
        }
    }
}

/// One step of building `s.filter(p)` front to back.
pub proof fn lemma_filter_take_step<T>(s: Seq<T>, p: spec_fn(T) -> bool, j: int)
    requires
        0 <= j < s.len(),
    ensures
        s.take(j + 1).filter(p) == if p(s[j]) {
            s.take(j).filter(p).push(s[j])
        } else {
            s.take(j).filter(p)
        },
{
    reveal(Seq::filter);
    let pre = s.take(j + 1);
    assert(pre.drop_last() =~= s.take(j));
    assert(pre.last() == s[j]);
}

/// Taking the whole sequence is the identity.
pub proof fn lemma_take_all<T>(s: Seq<T>)
    ensures
        s.take(s.len() as int) == s,
{
    assert(s.take(s.len() as int) =~= s);
}

} // verus!
