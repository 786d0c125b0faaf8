use vstd::prelude::*;

use crate::assoc::{
    assoc_map, distinct_keys, lemma_assoc_contains, lemma_assoc_get, lemma_assoc_push,
    lemma_assoc_remove, lemma_assoc_update, lemma_distinct_push,
};
use crate::errors::Error;
use vstd::pervasive::VecAdditionalExecFns;
use vstd::string::StringExecFns;

verus! {

/// A named bundle of off-board data, unlockable by any of several
/// single-use tokens.
pub struct Drop {
    /// The outstanding tokens of this drop, in issue order.
    pub keys: Vec<String>,
    /// An optional content reference bound at creation.
    pub data_cid: Option<String>,
}

/// The mathematical content of a [`Drop`].
#[verifier::ext_equal]
pub ghost struct DropV {
    pub keys: Seq<Seq<char>>,
    pub data_cid: Option<Seq<char>>,
}

impl View for Drop {
    type V = DropV;

    open spec fn view(&self) -> DropV {
        DropV { keys: self.keys.deep_view(), data_cid: self.data_cid.deep_view() }
    }
}

/// The mathematical content of the drop store: the owner, the id counter,
/// the drop table, the reverse token index and the record table.
#[verifier::ext_equal]
pub ghost struct DropStoreV {
    pub owner: Seq<char>,
    pub next_drop_id: u128,
    pub drops: Map<u128, DropV>,
    pub keys: Map<Seq<char>, u128>,
    pub records: Map<Seq<char>, Seq<char>>,
}

/// The global invariant of the store: every indexed token resolves to an
/// existing drop that lists it; every listed token is indexed back to its
/// drop (so a token belongs to at most one drop); no drop lists a token
/// twice; and every drop id was allocated by the counter.
pub open spec fn wf_view(v: DropStoreV) -> bool {
    &&& (forall|t: Seq<char>| #[trigger] v.keys.contains_key(t)
        ==> v.drops.contains_key(v.keys[t]) && v.drops[v.keys[t]].keys.contains(t))
    &&& (forall|d: u128, t: Seq<char>|
        v.drops.contains_key(d) && #[trigger] v.drops[d].keys.contains(t)
            ==> v.keys.contains_key(t) && v.keys[t] == d)
    &&& (forall|d: u128| #[trigger] v.drops.contains_key(d)
        ==> v.drops[d].keys.no_duplicates() && 1 <= d && d <= v.next_drop_id)
}

/// The payload returned by `claim` when the requested data id has no
/// record: a soft failure, not an error.
pub open spec fn missing_payload(data_id: Seq<char>) -> Seq<char> {
    "CID not found for ID: "@ + data_id
}

/// Effect of `add_drop` on the abstract store: the next id is allocated
/// for a fresh drop with no tokens, and the record table is updated.
pub open spec fn add_drop_step(v: DropStoreV, data_id: Seq<char>, cid: Seq<char>) -> DropStoreV {
    let id = (v.next_drop_id + 1) as u128;
    DropStoreV {
        next_drop_id: id,
        drops: v.drops.insert(id, DropV { keys: Seq::empty(), data_cid: Some(cid) }),
        records: v.records.insert(data_id, cid),
        ..v
    }
}

/// Effect of issuing a fresh token `t` for drop `d`: the token is appended
/// to the drop's collection and indexed back to `d`.
pub open spec fn add_key_step(v: DropStoreV, d: u128, t: Seq<char>) -> DropStoreV {
    DropStoreV {
        drops: v.drops.insert(d, DropV { keys: v.drops[d].keys.push(t), ..v.drops[d] }),
        keys: v.keys.insert(t, d),
        ..v
    }
}

/// Effect of revoking an indexed token `t`: it leaves both the reverse
/// index and its drop's collection in one atomic update.
pub open spec fn revoke_step(v: DropStoreV, t: Seq<char>) -> DropStoreV {
    let d = v.keys[t];
    DropStoreV {
        drops: v.drops.insert(d, DropV { keys: v.drops[d].keys.remove_value(t), ..v.drops[d] }),
        keys: v.keys.remove(t),
        ..v
    }
}

/// Effect of deleting drop `d`: every token it owns is revoked and the
/// drop itself is removed.
pub open spec fn remove_drop_step(v: DropStoreV, d: u128) -> DropStoreV {
    DropStoreV {
        drops: v.drops.remove(d),
        keys: v.keys.remove_keys(v.drops[d].keys.to_set()),
        ..v
    }
}

/// Capability-gated claim store: owns the drop table, the reverse token
/// index and the record table. Owner-only operations issue and revoke
/// tokens; token holders redeem them exactly once through `claim`.
/// Provisioning and retraction of live access keys is returned to the host
/// as part of each operation's result, never performed here.
pub struct DataDropContract {
    owner_id: String,
    drop_id: u128,
    drop_by_id: Vec<(u128, Drop)>,
    drop_by_key: Vec<(String, u128)>,
    records: Vec<(String, String)>,
}

/// The drop table as an association list.
pub open spec fn drop_entries(s: Seq<(u128, Drop)>) -> Seq<(u128, DropV)> {
    s.map_values(|p: (u128, Drop)| (p.0, p.1@))
}

/// The reverse token index as an association list.
pub open spec fn key_entries(s: Seq<(String, u128)>) -> Seq<(Seq<char>, u128)> {
    s.map_values(|p: (String, u128)| (p.0@, p.1))
}

/// The record table as an association list.
pub open spec fn record_entries(s: Seq<(String, String)>) -> Seq<(Seq<char>, Seq<char>)> {
    s.map_values(|p: (String, String)| (p.0@, p.1@))
}

impl View for DataDropContract {
    type V = DropStoreV;

    closed spec fn view(&self) -> DropStoreV {
        DropStoreV {
            owner: self.owner_id@,
            next_drop_id: self.drop_id,
            drops: assoc_map(drop_entries(self.drop_by_id@)),
            keys: assoc_map(key_entries(self.drop_by_key@)),
            records: assoc_map(record_entries(self.records@)),
        }
    }
}

/// Copies a vector of strings element by element.
fn copy_strings(v: &Vec<String>) -> (r: Vec<String>)
    ensures
        r@ == v@,
{
    let mut r: Vec<String> = Vec::new();
    let mut i: usize = 0;
    while i < v.len()
        invariant
            i <= v@.len(),
            r@.len() == i,
            forall|j: int| 0 <= j < i ==> r@[j] == v@[j],
        decreases v@.len() - i,
    {
        r.push(v[i].clone());
        i = i + 1;
    }
    proof {
        assert(r@ =~= v@);
    }
    r
}

/// Copies a drop field by field.
fn copy_drop(d: &Drop) -> (r: Drop)
    ensures
        r@ == d@,
{
    let keys = copy_strings(&d.keys);
    let data_cid = match &d.data_cid {
        Some(c) => Some(c.clone()),
        None => None,
    };
    let r = Drop { keys, data_cid };
    proof {
        assert(r@ =~= d@);
    }
    r
}

impl DataDropContract {
    /// Representation invariant: each table keys its entries uniquely and
    /// the abstract store is well formed.
    pub closed spec fn inv(&self) -> bool {
        &&& distinct_keys(drop_entries(self.drop_by_id@))
        &&& distinct_keys(key_entries(self.drop_by_key@))
        &&& distinct_keys(record_entries(self.records@))
        &&& wf_view(self@)
    }

    /// Initializes an empty store owned by `owner_id`.
    pub fn new(owner_id: String) -> (r: Self)
        ensures
            r.inv(),
            r@ == (DropStoreV {
                owner: owner_id@,
                next_drop_id: 0,
                drops: Map::<u128, DropV>::empty(),
                keys: Map::<Seq<char>, u128>::empty(),
                records: Map::<Seq<char>, Seq<char>>::empty(),
            }),
    {
        let r = DataDropContract {
            owner_id,
            drop_id: 0,
            drop_by_id: Vec::new(),
            drop_by_key: Vec::new(),
            records: Vec::new(),
        };
        proof {
            assert(drop_entries(r.drop_by_id@) =~= Seq::<(u128, DropV)>::empty());
            assert(key_entries(r.drop_by_key@) =~= Seq::<(Seq<char>, u128)>::empty());
            assert(record_entries(r.records@) =~= Seq::<(Seq<char>, Seq<char>)>::empty());
        }
        r
    }

    /// The last allocated drop id (0 before any drop exists). The id
    /// counter never decreases and ids are never reused.
    pub fn last_drop_id(&self) -> (r: u128)
        ensures
            r == self@.next_drop_id,
    {
        self.drop_id
    }

    /// The index of the drop filed under `d`, if any, together with the
    /// abstract binding it carries.
    fn find_drop_index(&self, d: u128) -> (r: Option<usize>)
        requires
            self.inv(),
        ensures
            match r {
                Some(i) => i < self.drop_by_id@.len() && self.drop_by_id@[i as int].0 == d
                    && self@.drops.contains_key(d)
                    && self@.drops[d] == self.drop_by_id@[i as int].1@,
                None => !self@.drops.contains_key(d),
            },
    {
        let mut i: usize = 0;
        while i < self.drop_by_id.len()
            invariant
                self.inv(),
                i <= self.drop_by_id@.len(),
                forall|j: int| 0 <= j < i ==> (#[trigger] self.drop_by_id@[j]).0 != d,
            decreases self.drop_by_id@.len() - i,
        {
            if self.drop_by_id[i].0 == d {
                proof {
                    let es = drop_entries(self.drop_by_id@);
                    assert(es[i as int].0 == d);
                    lemma_assoc_get(es, i as int);
                }
                return Some(i);
            }
            i = i + 1;
        }
        proof {
            let es = drop_entries(self.drop_by_id@);
            assert(forall|j: int| 0 <= j < es.len() ==> (#[trigger] es[j]).0 != d);
            lemma_assoc_contains(es, d);
        }
        None
    }

    /// The index of the reverse-index entry for token `t`, if any,
    /// together with the abstract binding it carries.
    fn find_key_index(&self, t: &String) -> (r: Option<usize>)
        requires
            self.inv(),
        ensures
            match r {
                Some(i) => i < self.drop_by_key@.len() && self.drop_by_key@[i as int].0@ == t@
                    && self@.keys.contains_key(t@)
                    && self@.keys[t@] == self.drop_by_key@[i as int].1,
                None => !self@.keys.contains_key(t@),
            },
    {
        let mut i: usize = 0;
        while i < self.drop_by_key.len()
            invariant
                self.inv(),
                i <= self.drop_by_key@.len(),
                forall|j: int| 0 <= j < i ==> (#[trigger] self.drop_by_key@[j]).0@ != t@,
            decreases self.drop_by_key@.len() - i,
        {
            if self.drop_by_key[i].0 == *t {
                proof {
                    let es = key_entries(self.drop_by_key@);
                    assert(es[i as int].0 == t@);
                    lemma_assoc_get(es, i as int);
                }
                return Some(i);
            }
            i = i + 1;
        }
        proof {
            let es = key_entries(self.drop_by_key@);
            assert(forall|j: int| 0 <= j < es.len() ==> (#[trigger] es[j]).0 != t@);
            lemma_assoc_contains(es, t@);
        }
        None
    }

    /// The index of the record for `data_id`, if any, together with the
    /// abstract binding it carries.
    fn find_record_index(&self, data_id: &String) -> (r: Option<usize>)
        requires
            self.inv(),
        ensures
            match r {
                Some(i) => i < self.records@.len() && self.records@[i as int].0@ == data_id@
                    && self@.records.contains_key(data_id@)
                    && self@.records[data_id@] == self.records@[i as int].1@,
                None => !self@.records.contains_key(data_id@),
            },
    {
        let mut i: usize = 0;
        while i < self.records.len()
            invariant
                self.inv(),
                i <= self.records@.len(),
                forall|j: int| 0 <= j < i ==> (#[trigger] self.records@[j]).0@ != data_id@,
            decreases self.records@.len() - i,
        {
            if self.records[i].0 == *data_id {
                proof {
                    let es = record_entries(self.records@);
                    assert(es[i as int].0 == data_id@);
                    lemma_assoc_get(es, i as int);
                }
                return Some(i);
            }
            i = i + 1;
        }
        proof {
            let es = record_entries(self.records@);
            assert(forall|j: int| 0 <= j < es.len() ==> (#[trigger] es[j]).0 != data_id@);
            lemma_assoc_contains(es, data_id@);
        }
        None
    }

    /// Creates a drop bound to content reference `cid`, allocating the
    /// next drop id, and files `cid` under `data_id` in the record table.
    /// Owner-only; fails Unauthorized for any other caller and
    /// InvalidArgument for an empty content reference, in that order,
    /// leaving the store unchanged.
    pub fn add_drop(&mut self, caller: &String, data_id: String, cid: String) -> (r: Result<
        u128,
        Error,
    >)
        requires
            old(self).inv(),
            old(self)@.next_drop_id < u128::MAX,
        ensures
            final(self).inv(),
            caller@ != old(self)@.owner ==> r == Err::<u128, Error>(Error::Unauthorized)
                && final(self)@ == old(self)@,
            caller@ == old(self)@.owner && cid@.len() == 0 ==> r == Err::<u128, Error>(
                Error::InvalidArgument,
            ) && final(self)@ == old(self)@,
            caller@ == old(self)@.owner && cid@.len() > 0 ==> r == Ok::<u128, Error>(
                (old(self)@.next_drop_id + 1) as u128,
            ) && final(self)@ == add_drop_step(old(self)@, data_id@, cid@),
    {
        if !(*caller == self.owner_id) {
            return Err(Error::Unauthorized);
        }
        if cid.as_str().is_empty() {
            proof {
                assert(cid@.len() == 0);
            }
            return Err(Error::InvalidArgument);
        }
        let ghost v0 = self@;
        let ghost des = drop_entries(self.drop_by_id@);
        let new_id = self.drop_id + 1;
        self.drop_id = new_id;
        proof {
            // every existing drop id is at most the old counter, so the new id is fresh
            assert forall|i: int| 0 <= i < des.len() implies (#[trigger] des[i]).0 != new_id by {
                lemma_assoc_get(des, i);
                assert(v0.drops.contains_key(des[i].0));
            }
            lemma_distinct_push(des, new_id, DropV { keys: Seq::empty(), data_cid: Some(cid@) });
            lemma_assoc_push(des, new_id, DropV { keys: Seq::empty(), data_cid: Some(cid@) });
        }
        let bound = Drop { keys: Vec::new(), data_cid: Some(cid.clone()) };
        proof {
            assert(bound@ =~= (DropV { keys: Seq::empty(), data_cid: Some(cid@) }));
        }
        self.drop_by_id.push((new_id, bound));
        proof {
            assert(drop_entries(self.drop_by_id@) =~= des.push(
                (new_id, DropV { keys: Seq::empty(), data_cid: Some(cid@) }),
            ));
        }
        // file the record, overwriting an existing binding for the same id
        let ghost res = record_entries(self.records@);
        match self.find_record_in_table(&data_id) {
            Some(i) => {
                proof {
                    assert(res[i as int] == (self.records@[i as int].0@, self.records@[i as int].1@));
                    lemma_assoc_update(res, i as int, cid@);
                }
                self.records.set(i, (data_id, cid));
                proof {
                    assert(record_entries(self.records@) =~= res.update(
                        i as int,
                        (res[i as int].0, cid@),
                    ));
                }
            },
            None => {
                proof {
                    lemma_distinct_push(res, data_id@, cid@);
                    lemma_assoc_push(res, data_id@, cid@);
                }
                self.records.push((data_id, cid));
                proof {
                    assert(record_entries(self.records@) =~= res.push((data_id@, cid@)));
                }
            },
        }
        proof {
            assert(self@ =~= add_drop_step(v0, data_id@, cid@));
            assert(wf_view(self@));
        }
        Ok(new_id)
    }

    /// Like `find_record_index`, but stated against the entry list alone,
    /// for use while the store invariant is partially re-established.
    fn find_record_in_table(&self, data_id: &String) -> (r: Option<usize>)
        ensures
            match r {
                Some(i) => i < self.records@.len() && self.records@[i as int].0@ == data_id@,
                None => forall|j: int|
                    0 <= j < self.records@.len() ==> (#[trigger] self.records@[j]).0@ != data_id@,
            },
    {
        let mut i: usize = 0;
        while i < self.records.len()
            invariant
                i <= self.records@.len(),
                forall|j: int| 0 <= j < i ==> (#[trigger] self.records@[j]).0@ != data_id@,
            decreases self.records@.len() - i,
        {
            if self.records[i].0 == *data_id {
                return Some(i);
            }
            i = i + 1;
        }
        None
    }

    /// Issues token `key` for drop `drop_id`. Owner-only. Re-adding an
    /// already-indexed token is an idempotent no-op reported as Ok(false),
    /// not an error; issuing a fresh token appends it to the drop's
    /// collection, indexes it, and reports Ok(true), upon which the host
    /// must provision the live capability (scoped to the claim operation,
    /// with a bounded allowance). Fails NotFound for an unknown drop.
    pub fn add_drop_key(&mut self, caller: &String, drop_id: u128, key: String) -> (r: Result<
        bool,
        Error,
    >)
        requires
            old(self).inv(),
        ensures
            final(self).inv(),
            caller@ != old(self)@.owner ==> r == Err::<bool, Error>(Error::Unauthorized)
                && final(self)@ == old(self)@,
            caller@ == old(self)@.owner && old(self)@.keys.contains_key(key@) ==> r == Ok::<
                bool,
                Error,
            >(false) && final(self)@ == old(self)@,
            caller@ == old(self)@.owner && !old(self)@.keys.contains_key(key@)
                && !old(self)@.drops.contains_key(drop_id) ==> r == Err::<bool, Error>(
                Error::NotFound,
            ) && final(self)@ == old(self)@,
            caller@ == old(self)@.owner && !old(self)@.keys.contains_key(key@)
                && old(self)@.drops.contains_key(drop_id) ==> r == Ok::<bool, Error>(true)
                && final(self)@ == add_key_step(old(self)@, drop_id, key@),
    {
        if !(*caller == self.owner_id) {
            return Err(Error::Unauthorized);
        }
        if self.find_key_index(&key).is_some() {
            return Ok(false);
        }
        let ghost v0 = self@;
        match self.find_drop_index(drop_id) {
            None => Err(Error::NotFound),
            Some(i) => {
                let ghost okeys: Seq<String> = self.drop_by_id@[i as int].1.keys@;
                let entry = &self.drop_by_id[i];
                let mut new_keys = copy_strings(&entry.1.keys);
                new_keys.push(key.clone());
                let data_cid = match &entry.1.data_cid {
                    Some(c) => Some(c.clone()),
                    None => None,
                };
                let updated = Drop { keys: new_keys, data_cid };
                proof {
                    assert(updated.keys@ == okeys.push(key));
                    assert forall|m: int| 0 <= m < updated@.keys.len() implies updated@.keys[m]
                        == v0.drops[drop_id].keys.push(key@)[m] by {
                        assert(updated@.keys[m] == updated.keys@[m]@);
                        if m < okeys.len() {
                            assert(updated.keys@[m] == okeys[m]);
                        }
                    }
                    assert(updated@.keys =~= v0.drops[drop_id].keys.push(key@));
                    assert(updated@ =~= (DropV {
                        keys: v0.drops[drop_id].keys.push(key@),
                        ..v0.drops[drop_id]
                    }));
                }
                let ghost des = drop_entries(self.drop_by_id@);
                proof {
                    assert(des[i as int] == (drop_id, v0.drops[drop_id]));
                    lemma_assoc_update(des, i as int, updated@);
                }
                self.drop_by_id.set(i, (drop_id, updated));
                proof {
                    assert(drop_entries(self.drop_by_id@) =~= des.update(
                        i as int,
                        (drop_id, updated@),
                    ));
                }
                let ghost kes = key_entries(self.drop_by_key@);
                proof {
                    lemma_assoc_contains(kes, key@);
                    assert(forall|j: int| 0 <= j < kes.len() ==> (#[trigger] kes[j]).0 != key@);
                    lemma_distinct_push(kes, key@, drop_id);
                    lemma_assoc_push(kes, key@, drop_id);
                }
                self.drop_by_key.push((key, drop_id));
                proof {
                    assert(key_entries(self.drop_by_key@) =~= kes.push((key@, drop_id)));
                    assert(self@ =~= add_key_step(v0, drop_id, key@));
                    lemma_issue_fresh_token(v0, drop_id, key@);
                }
                Ok(true)
            },
        }
    }

    /// The shared internal revoke primitive: if `key` is indexed, removes
    /// it from the reverse index and from its drop's collection in one
    /// atomic update and reports true (the host must then retract the live
    /// capability); otherwise a no-op reporting false.
    fn revoke_token(&mut self, key: &String) -> (found: bool)
        requires
            old(self).inv(),
        ensures
            final(self).inv(),
            !old(self)@.keys.contains_key(key@) ==> !found && final(self)@ == old(self)@,
            old(self)@.keys.contains_key(key@) ==> found && final(self)@ == revoke_step(
                old(self)@,
                key@,
            ),
    {
        let ghost v0 = self@;
        let j = match self.find_key_index(key) {
            None => {
                return false;
            },
            Some(j) => j,
        };
        let d = self.drop_by_key[j].1;
        let i = match self.find_drop_index(d) {
            None => {
                proof {
                    assert(false);
                }
                return false;
            },
            Some(i) => i,
        };
        let ghost okeys: Seq<String> = self.drop_by_id@[i as int].1.keys@;
        let ghost ks = v0.drops[d].keys;
        let entry = &self.drop_by_id[i];
        let k = match find_first_string(&entry.1.keys, key) {
            None => {
                proof {
                    assert(ks.contains(key@));
                    let m = choose|m: int| 0 <= m < ks.len() && ks[m] == key@;
                    assert(okeys[m]@ == key@);
                    assert(false);
                }
                return false;
            },
            Some(k) => k,
        };
        let mut new_keys = copy_strings(&entry.1.keys);
        new_keys.remove(k);
        let data_cid = match &entry.1.data_cid {
            Some(c) => Some(c.clone()),
            None => None,
        };
        let updated = Drop { keys: new_keys, data_cid };
        proof {
            // the scan found the first occurrence, which is the one
            // remove_value takes out
            assert(ks[k as int] == key@);
            ks.index_of_first_ensures(key@);
            let fi = ks.index_of_first(key@).unwrap();
            assert(forall|m: int| 0 <= m < k ==> ks[m] != key@);
            assert(fi == k as int);
            ks.remove_ensures(k as int);
            assert(new_keys@ == okeys.remove(k as int));
            assert forall|m: int| 0 <= m < updated@.keys.len() implies updated@.keys[m]
                == ks.remove_value(key@)[m] by {
                assert(updated@.keys[m] == new_keys@[m]@);
                okeys.remove_ensures(k as int);
                if m < k {
                    assert(new_keys@[m] == okeys[m]);
                    assert(ks.remove(k as int)[m] == ks[m]);
                } else {
                    assert(new_keys@[m] == okeys[m + 1]);
                    assert(ks.remove(k as int)[m] == ks[m + 1]);
                }
            }
            assert(updated@.keys =~= ks.remove_value(key@));
            assert(updated@ =~= (DropV { keys: ks.remove_value(key@), ..v0.drops[d] }));
        }
        let ghost des = drop_entries(self.drop_by_id@);
        proof {
            assert(des[i as int] == (d, v0.drops[d]));
            lemma_assoc_update(des, i as int, updated@);
        }
        self.drop_by_id.set(i, (d, updated));
        proof {
            assert(drop_entries(self.drop_by_id@) =~= des.update(i as int, (d, updated@)));
        }
        let ghost kes = key_entries(self.drop_by_key@);
        proof {
            assert(kes[j as int].0 == key@);
            lemma_assoc_remove(kes, j as int);
        }
        let _ = self.drop_by_key.remove(j);
        proof {
            assert(key_entries(self.drop_by_key@) =~= kes.remove(j as int));
            assert(self@ =~= revoke_step(v0, key@));
            lemma_revoke_exactly_once(v0, key@);
        }
        true
    }

    /// Explicitly revokes token `key`. Owner-only; fails NotFound if the
    /// token is not indexed (never issued, already claimed or already
    /// removed), otherwise delegates to the shared revoke primitive.
    pub fn remove_key(&mut self, caller: &String, key: String) -> (r: Result<(), Error>)
        requires
            old(self).inv(),
        ensures
            final(self).inv(),
            caller@ != old(self)@.owner ==> r == Err::<(), Error>(Error::Unauthorized)
                && final(self)@ == old(self)@,
            caller@ == old(self)@.owner && !old(self)@.keys.contains_key(key@) ==> r == Err::<
                (),
                Error,
            >(Error::NotFound) && final(self)@ == old(self)@,
            caller@ == old(self)@.owner && old(self)@.keys.contains_key(key@) ==> r == Ok::<
                (),
                Error,
            >(()) && final(self)@ == revoke_step(old(self)@, key@),
    {
        if !(*caller == self.owner_id) {
            return Err(Error::Unauthorized);
        }
        if self.revoke_token(&key) {
            Ok(())
        } else {
            Err(Error::NotFound)
        }
    }

    /// Redeems a presented token: possession of the token is the entire
    /// authorization. An unindexed token (never issued or already claimed)
    /// fails NotFound. Otherwise the data id is resolved in the record
    /// table -- a missing record yields the sentinel payload rather than an
    /// error -- and the token is unconditionally revoked through the shared
    /// primitive before the content reference is returned, so a token
    /// redeems exactly once.
    pub fn claim(&mut self, key: String, data_id: String) -> (r: Result<String, Error>)
        requires
            old(self).inv(),
        ensures
            final(self).inv(),
            !old(self)@.keys.contains_key(key@) ==> r == Err::<String, Error>(Error::NotFound)
                && final(self)@ == old(self)@,
            old(self)@.keys.contains_key(key@) ==> final(self)@ == revoke_step(old(self)@, key@)
                && (r matches Ok(cid) && cid@ == (if old(self)@.records.contains_key(data_id@) {
                    old(self)@.records[data_id@]
                } else {
                    missing_payload(data_id@)
                })),
    {
        if self.find_key_index(&key).is_none() {
            return Err(Error::NotFound);
        }
        let cid = match self.find_record_index(&data_id) {
            Some(i) => self.records[i].1.clone(),
            None => {
                let mut payload = "CID not found for ID: ".to_owned();
                payload.append(data_id.as_str());
                payload
            },
        };
        let found = self.revoke_token(&key);
        proof {
            assert(found);
        }
        Ok(cid)
    }

    /// Deletes drop `drop_id` after revoking every token it still owns,
    /// each through the shared revoke primitive, and returns the revoked
    /// tokens in issue order so the host can retract their live
    /// capabilities. Owner-only; fails NotFound for an unknown drop.
    pub fn remove_drop(&mut self, caller: &String, drop_id: u128) -> (r: Result<
        Vec<String>,
        Error,
    >)
        requires
            old(self).inv(),
        ensures
            final(self).inv(),
            caller@ != old(self)@.owner ==> r == Err::<Vec<String>, Error>(Error::Unauthorized)
                && final(self)@ == old(self)@,
            caller@ == old(self)@.owner && !old(self)@.drops.contains_key(drop_id) ==> r == Err::<
                Vec<String>,
                Error,
            >(Error::NotFound) && final(self)@ == old(self)@,
            caller@ == old(self)@.owner && old(self)@.drops.contains_key(drop_id) ==> (r matches Ok(
                toks,
            ) && toks.deep_view() == old(self)@.drops[drop_id].keys && final(self)@
                == remove_drop_step(old(self)@, drop_id)),
    {
        if !(*caller == self.owner_id) {
            return Err(Error::Unauthorized);
        }
        let ghost v0 = self@;
        let i = match self.find_drop_index(drop_id) {
            None => {
                return Err(Error::NotFound);
            },
            Some(i) => i,
        };
        let ghost okeys: Seq<String> = self.drop_by_id@[i as int].1.keys@;
        let toks = copy_strings(&self.drop_by_id[i].1.keys);
        let ghost ks = v0.drops[drop_id].keys;
        proof {
            assert forall|m: int| 0 <= m < toks.deep_view().len() implies toks.deep_view()[m]
                == ks[m] by {
                assert(toks.deep_view()[m] == toks@[m]@);
                assert(toks@[m] == okeys[m]);
            }
            assert(toks.deep_view() =~= ks);
            // the loop invariant holds initially
            assert(ks.skip(0) =~= ks);
            assert((DropV { keys: ks.skip(0), data_cid: v0.drops[drop_id].data_cid })
                =~= v0.drops[drop_id]);
            assert(v0.drops.insert(drop_id, v0.drops[drop_id]) =~= v0.drops);
            assert(ks.take(0) =~= Seq::<Seq<char>>::empty());
            assert(ks.take(0).to_set() =~= Set::<Seq<char>>::empty());
            assert(v0.keys.remove_keys(ks.take(0).to_set()) =~= v0.keys);
        }
        let mut j: usize = 0;
        while j < toks.len()
            invariant
                self.inv(),
                wf_view(v0),
                j <= toks@.len(),
                toks.deep_view() == ks,
                toks@.len() == ks.len(),
                ks.no_duplicates(),
                v0.drops.contains_key(drop_id),
                ks == v0.drops[drop_id].keys,
                self@.owner == v0.owner,
                self@.next_drop_id == v0.next_drop_id,
                self@.records == v0.records,
                self@.drops == v0.drops.insert(drop_id, (DropV {
                    keys: ks.skip(j as int),
                    data_cid: v0.drops[drop_id].data_cid,
                })),
                self@.keys == v0.keys.remove_keys(ks.take(j as int).to_set()),
            decreases toks@.len() - j,
        {
            let ghost cur = self@;
            proof {
                assert(toks.deep_view()[j as int] == toks@[j as int]@);
                assert(ks[j as int] == toks@[j as int]@);
                assert(ks.contains(ks[j as int]));
                // the current token was not among the first j, so it is
                // still indexed, and it is indexed to this drop
                assert(!ks.take(j as int).to_set().contains(ks[j as int])) by {
                    if ks.take(j as int).contains(ks[j as int]) {
                        let m = choose|m: int|
                            0 <= m < j && ks.take(j as int)[m] == ks[j as int];
                        assert(ks[m] == ks[j as int]);
                    }
                }
                assert(v0.keys.contains_key(ks[j as int]) && v0.keys[ks[j as int]] == drop_id);
                assert(cur.keys.contains_key(ks[j as int]));
                assert(cur.keys[ks[j as int]] == drop_id);
            }
            let _revoked = self.revoke_token(&toks[j]);
            proof {
                let t = ks[j as int];
                let w = revoke_step(cur, t);
                assert(self@ == w);
                let sj = ks.skip(j as int);
                assert(cur.drops[drop_id] == (DropV {
                    keys: sj,
                    data_cid: v0.drops[drop_id].data_cid,
                }));
                // removing the head of the remaining suffix leaves the
                // next suffix
                assert(forall|m: int| 0 <= m < sj.len() ==> sj[m] == ks[j + m]);
                assert(sj[0] == t);
                assert(sj.no_duplicates()) by {
                    assert forall|p: int, q: int|
                        0 <= p < sj.len() && 0 <= q < sj.len() && p != q implies sj[p]
                        != sj[q] by {
                        assert(sj[p] == ks[j + p] && sj[q] == ks[j + q]);
                    }
                }
                sj.index_of_first_ensures(t);
                assert(sj.contains(t));
                let fi = sj.index_of_first(t).unwrap();
                assert(fi == 0) by {
                    if fi > 0 {
                        assert(sj[0] != t);
                    }
                }
                sj.remove_ensures(0);
                assert(sj.remove_value(t) =~= ks.skip(j as int + 1)) by {
                    assert forall|m: int| 0 <= m < sj.remove(0).len() implies sj.remove(0)[m]
                        == ks.skip(j as int + 1)[m] by {
                        assert(sj.remove(0)[m] == sj[m + 1]);
                        assert(ks.skip(j as int + 1)[m] == ks[j + 1 + m]);
                    }
                }
                assert(w.drops =~= v0.drops.insert(drop_id, (DropV {
                    keys: ks.skip(j as int + 1),
                    data_cid: v0.drops[drop_id].data_cid,
                })));
                // the set of revoked tokens grows by exactly this token
                assert(ks.take(j as int + 1) =~= ks.take(j as int).push(t));
                assert(ks.take(j as int + 1).to_set() =~= ks.take(j as int).to_set().insert(t))
                    by {
                    assert forall|x: Seq<char>|
                        ks.take(j as int + 1).to_set().contains(x) <==> ks.take(
                            j as int,
                        ).to_set().contains(x) || x == t by {
                        lemma_push_contains(ks.take(j as int), t, x);
                        assert(ks.take(j as int + 1).contains(x) <==> ks.take(j as int).push(
                            t,
                        ).contains(x));
                    }
                }
                assert(w.keys =~= v0.keys.remove_keys(ks.take(j as int + 1).to_set()));
            }
            j = j + 1;
        }
        proof {
            assert(ks.skip(ks.len() as int) =~= Seq::<Seq<char>>::empty());
            assert(ks.take(ks.len() as int) =~= ks);
            assert(self@.drops.contains_key(drop_id));
        }
        let i2 = match self.find_drop_index(drop_id) {
            None => {
                proof {
                    assert(false);
                }
                return Err(Error::NotFound);
            },
            Some(i2) => i2,
        };
        let ghost des = drop_entries(self.drop_by_id@);
        proof {
            assert(des[i2 as int].0 == drop_id);
            lemma_assoc_remove(des, i2 as int);
        }
        let _ = self.drop_by_id.remove(i2);
        proof {
            assert(drop_entries(self.drop_by_id@) =~= des.remove(i2 as int));
            assert(self@.drops =~= v0.drops.remove(drop_id));
            assert(self@ =~= remove_drop_step(v0, drop_id));
            lemma_remove_drop_cascade(v0, drop_id);
        }
        Ok(toks)
    }

    /// All drop ids currently in the store, each exactly once.
    pub fn get_drops(&self) -> (r: Vec<u128>)
        requires
            self.inv(),
        ensures
            r@.no_duplicates(),
            forall|d: u128| #[trigger] r@.contains(d) <==> self@.drops.contains_key(d),
    {
        let mut r: Vec<u128> = Vec::new();
        let mut i: usize = 0;
        while i < self.drop_by_id.len()
            invariant
                self.inv(),
                i <= self.drop_by_id@.len(),
                r@.len() == i,
                forall|j: int| 0 <= j < i ==> r@[j] == (#[trigger] self.drop_by_id@[j]).0,
            decreases self.drop_by_id@.len() - i,
        {
            r.push(self.drop_by_id[i].0);
            i = i + 1;
        }
        proof {
            let des = drop_entries(self.drop_by_id@);
            assert forall|p: int, q: int|
                0 <= p < r@.len() && 0 <= q < r@.len() && p != q implies r@[p] != r@[q] by {
                assert(des[p].0 == r@[p] && des[q].0 == r@[q]);
            }
            assert forall|d: u128| #[trigger] r@.contains(d) <==> self@.drops.contains_key(d) by {
                lemma_assoc_contains(des, d);
                if r@.contains(d) {
                    let m = choose|m: int| 0 <= m < r@.len() && r@[m] == d;
                    assert(des[m].0 == d);
                }
                if self@.drops.contains_key(d) {
                    let m = choose|m: int| 0 <= m < des.len() && (#[trigger] des[m]).0 == d;
                    assert(r@[m] == d);
                }
            }
        }
        r
    }

    /// The outstanding tokens of drop `drop_id`, in issue order. Fails
    /// NotFound for an unknown drop.
    pub fn get_keys(&self, drop_id: u128) -> (r: Result<Vec<String>, Error>)
        requires
            self.inv(),
        ensures
            self@.drops.contains_key(drop_id) ==> (r matches Ok(ks) && ks.deep_view()
                == self@.drops[drop_id].keys),
            !self@.drops.contains_key(drop_id) ==> r == Err::<Vec<String>, Error>(Error::NotFound),
    {
        match self.find_drop_index(drop_id) {
            None => Err(Error::NotFound),
            Some(i) => {
                let ghost okeys: Seq<String> = self.drop_by_id@[i as int].1.keys@;
                let ks = copy_strings(&self.drop_by_id[i].1.keys);
                proof {
                    assert forall|m: int| 0 <= m < ks.deep_view().len() implies ks.deep_view()[m]
                        == self@.drops[drop_id].keys[m] by {
                        assert(ks.deep_view()[m] == ks@[m]@);
                        assert(ks@[m] == okeys[m]);
                    }
                    assert(ks.deep_view() =~= self@.drops[drop_id].keys);
                }
                Ok(ks)
            },
        }
    }

    /// A copy of drop `drop_id`, or None if it does not exist.
    pub fn get_drop(&self, drop_id: u128) -> (r: Option<Drop>)
        requires
            self.inv(),
        ensures
            match r {
                Some(dr) => self@.drops.contains_key(drop_id) && dr@ == self@.drops[drop_id],
                None => !self@.drops.contains_key(drop_id),
            },
    {
        match self.find_drop_index(drop_id) {
            None => None,
            Some(i) => Some(copy_drop(&self.drop_by_id[i].1)),
        }
    }
}

/// The index of the first element of `v` whose characters equal `t`'s.
fn find_first_string(v: &Vec<String>, t: &String) -> (r: Option<usize>)
    ensures
        match r {
            Some(k) => k < v@.len() && v@[k as int]@ == t@ && (forall|j: int|
                0 <= j < k ==> (#[trigger] v@[j])@ != t@),
            None => forall|j: int| 0 <= j < v@.len() ==> (#[trigger] v@[j])@ != t@,
        },
{
    let mut i: usize = 0;
    while i < v.len()
        invariant
            i <= v@.len(),
            forall|j: int| 0 <= j < i ==> (#[trigger] v@[j])@ != t@,
        decreases v@.len() - i,
    {
        if v[i] == *t {
            return Some(i);
        }
        i = i + 1;
    }
    None
}

/// Membership in a pushed sequence.
proof fn lemma_push_contains<A>(s: Seq<A>, t: A, x: A)
    ensures
        s.push(t).contains(x) <==> (s.contains(x) || x == t),
{
    assert(s.push(t)[s.len() as int] == t);
    if s.push(t).contains(x) {
        let j = choose|j: int| 0 <= j < s.push(t).len() && s.push(t)[j] == x;
        if j < s.len() {
            assert(s[j] == x);
        }
    }
    if s.contains(x) {
        let j = choose|j: int| 0 <= j < s.len() && s[j] == x;
        assert(s.push(t)[j] == x);
    }
}

/// Pushing a fresh element keeps a sequence duplicate-free.
proof fn lemma_push_no_dup<A>(s: Seq<A>, t: A)
    requires
        s.no_duplicates(),
        !s.contains(t),
    ensures
        s.push(t).no_duplicates(),
{
    let r = s.push(t);
    assert forall|p: int, q: int|
        0 <= p < r.len() && 0 <= q < r.len() && p != q implies r[p] != r[q] by {
        if p < s.len() && q < s.len() {
            assert(s[p] == r[p] && s[q] == r[q]);
        } else if p < s.len() {
            assert(r[q] == t && r[p] == s[p]);
        } else {
            assert(r[p] == t && r[q] == s[q]);
        }
    }
}

/// What removing one value does to a duplicate-free sequence: the value is
/// gone entirely, everything else stays, and no duplicate appears.
proof fn lemma_remove_value_props<A>(s: Seq<A>, t: A)
    requires
        s.no_duplicates(),
        s.contains(t),
    ensures
        s.remove_value(t).len() == s.len() - 1,
        !s.remove_value(t).contains(t),
        forall|x: A| x != t ==> (#[trigger] s.remove_value(t).contains(x) <==> s.contains(x)),
        s.remove_value(t).no_duplicates(),
{
    s.index_of_first_ensures(t);
    let i = s.index_of_first(t).unwrap();
    s.remove_ensures(i);
    let r = s.remove(i);
    assert forall|x: A| x != t implies (#[trigger] r.contains(x) <==> s.contains(x)) by {
        if r.contains(x) {
            let j = choose|j: int| 0 <= j < r.len() && r[j] == x;
            if j < i {
                assert(s[j] == x);
            } else {
                assert(s[j + 1] == x);
            }
        }
        if s.contains(x) {
            let j = choose|j: int| 0 <= j < s.len() && s[j] == x;
            assert(j != i);
            if j < i {
                assert(r[j] == x);
            } else {
                assert(r[j - 1] == s[j]);
            }
        }
    }
    assert(!r.contains(t)) by {
        if r.contains(t) {
            let j = choose|j: int| 0 <= j < r.len() && r[j] == t;
            if j < i {
                assert(s[j] == t && s[i] == t);
            } else {
                assert(s[j + 1] == t && s[i] == t);
            }
        }
    }
    assert forall|p: int, q: int|
        0 <= p < r.len() && 0 <= q < r.len() && p != q implies r[p] != r[q] by {
        let sp: int = if p < i { p } else { p + 1 };
        let sq: int = if q < i { q } else { q + 1 };
        assert(r[p] == s[sp] && r[q] == s[sq]);
        assert(sp != sq);
    }
}

/// Law (single use, issue side): issuing a fresh token for an existing
/// drop keeps the store well formed, indexes the token to that drop, and
/// leaves exactly one entry for it in the drop's collection -- so issuing
/// the same token again is the idempotent no-op that `add_drop_key`
/// reports as Ok(false), leaving one entry in both the collection and the
/// reverse index.
pub proof fn lemma_issue_fresh_token(v: DropStoreV, d: u128, t: Seq<char>)
    requires
        wf_view(v),
        v.drops.contains_key(d),
        !v.keys.contains_key(t),
    ensures
        wf_view(add_key_step(v, d, t)),
        add_key_step(v, d, t).keys.contains_key(t),
        add_key_step(v, d, t).keys[t] == d,
        add_key_step(v, d, t).drops[d].keys.contains(t),
        add_key_step(v, d, t).drops[d].keys.no_duplicates(),
{
    let w = add_key_step(v, d, t);
    let ol = v.drops[d].keys;
    let nl = ol.push(t);
    assert(!ol.contains(t));
    lemma_push_no_dup(ol, t);
    assert(nl[nl.len() - 1] == t);
    assert(nl.contains(t));
    assert forall|t2: Seq<char>| #[trigger] w.keys.contains_key(t2) implies
        w.drops.contains_key(w.keys[t2]) && w.drops[w.keys[t2]].keys.contains(t2) by {
        if t2 == t {
        } else {
            let d2 = v.keys[t2];
            assert(v.drops.contains_key(d2) && v.drops[d2].keys.contains(t2));
            if d2 == d {
                lemma_push_contains(ol, t, t2);
            }
        }
    }
    assert forall|d2: u128, t2: Seq<char>|
        w.drops.contains_key(d2) && #[trigger] w.drops[d2].keys.contains(t2) implies
        w.keys.contains_key(t2) && w.keys[t2] == d2 by {
        if d2 == d {
            lemma_push_contains(ol, t, t2);
            if t2 != t {
                assert(v.drops[d].keys.contains(t2));
            }
        } else {
            assert(v.drops[d2].keys.contains(t2));
            assert(t2 != t);
        }
    }
    assert forall|d2: u128| #[trigger] w.drops.contains_key(d2) implies
        w.drops[d2].keys.no_duplicates() && 1 <= d2 && d2 <= w.next_drop_id by {
        if d2 != d {
            assert(v.drops.contains_key(d2));
        }
    }
}

/// Law (single use, spend side): revoking an indexed token -- which is
/// what a successful `claim`, an explicit `remove_key` and each step of
/// the removal cascade all do -- keeps the store well formed and leaves
/// the token absent from the reverse index and from every drop's
/// collection, permanently; any later `claim` or `remove_key` with the
/// same token therefore fails NotFound.
pub proof fn lemma_revoke_exactly_once(v: DropStoreV, t: Seq<char>)
    requires
        wf_view(v),
        v.keys.contains_key(t),
    ensures
        wf_view(revoke_step(v, t)),
        !revoke_step(v, t).keys.contains_key(t),
        forall|d: u128| #[trigger] revoke_step(v, t).drops.contains_key(d)
            ==> !revoke_step(v, t).drops[d].keys.contains(t),
{
    let w = revoke_step(v, t);
    let d = v.keys[t];
    let ol = v.drops[d].keys;
    lemma_remove_value_props(ol, t);
    let nl = ol.remove_value(t);
    assert forall|d2: u128| #[trigger] w.drops.contains_key(d2) implies
        !w.drops[d2].keys.contains(t) by {
        if d2 != d {
            if v.drops[d2].keys.contains(t) {
                assert(v.keys[t] == d2);
            }
        }
    }
    assert forall|t2: Seq<char>| #[trigger] w.keys.contains_key(t2) implies
        w.drops.contains_key(w.keys[t2]) && w.drops[w.keys[t2]].keys.contains(t2) by {
        let d2 = v.keys[t2];
        assert(v.drops.contains_key(d2) && v.drops[d2].keys.contains(t2));
        assert(t2 != t);
    }
    assert forall|d2: u128, t2: Seq<char>|
        w.drops.contains_key(d2) && #[trigger] w.drops[d2].keys.contains(t2) implies
        w.keys.contains_key(t2) && w.keys[t2] == d2 by {
        if d2 == d {
            assert(ol.contains(t2) && t2 != t);
        } else {
            assert(v.drops[d2].keys.contains(t2));
            assert(t2 != t);
        }
    }
    assert forall|d2: u128| #[trigger] w.drops.contains_key(d2) implies
        w.drops[d2].keys.no_duplicates() && 1 <= d2 && d2 <= w.next_drop_id by {
        assert(v.drops.contains_key(d2));
    }
}


/// Law (cascading revocation): deleting a drop keeps the store well
/// formed, makes the drop itself -- and so `get_keys` on it -- fail
/// NotFound, and leaves every token it formerly owned out of the reverse
/// index, so a later `claim` with any of those tokens fails NotFound.
pub proof fn lemma_remove_drop_cascade(v: DropStoreV, d: u128)
    requires
        wf_view(v),
        v.drops.contains_key(d),
    ensures
        wf_view(remove_drop_step(v, d)),
        !remove_drop_step(v, d).drops.contains_key(d),
        forall|t: Seq<char>| v.drops[d].keys.contains(t)
            ==> !(#[trigger] remove_drop_step(v, d).keys.contains_key(t)),
{
    let w = remove_drop_step(v, d);
    let ks = v.drops[d].keys;
    assert forall|t: Seq<char>| #[trigger] w.keys.contains_key(t) implies
        w.drops.contains_key(w.keys[t]) && w.drops[w.keys[t]].keys.contains(t) by {
        assert(v.keys.contains_key(t));
        let d2 = v.keys[t];
        assert(v.drops.contains_key(d2) && v.drops[d2].keys.contains(t));
        assert(!ks.to_set().contains(t));
        assert(d2 != d);
    }
    assert forall|d2: u128, t: Seq<char>|
        w.drops.contains_key(d2) && #[trigger] w.drops[d2].keys.contains(t) implies
        w.keys.contains_key(t) && w.keys[t] == d2 by {
        assert(d2 != d);
        assert(v.drops[d2].keys.contains(t));
        assert(v.keys.contains_key(t) && v.keys[t] == d2);
        assert(!ks.contains(t)) by {
            if ks.contains(t) {
                assert(v.keys[t] == d);
            }
        }
    }
    assert forall|d2: u128| #[trigger] w.drops.contains_key(d2) implies
        w.drops[d2].keys.no_duplicates() && 1 <= d2 && d2 <= w.next_drop_id by {
        assert(v.drops.contains_key(d2));
    }
}

/// Law (single use, permanence): a token absent from the reverse index
/// stays absent under every operation of the store short of issuing that
/// very token again -- creating a drop, issuing a different token,
/// revoking any indexed token and deleting any drop all leave it
/// unindexed, and by the contracts of `claim` and `remove_key` a call
/// presenting it fails NotFound and changes nothing.
pub proof fn lemma_spent_token_stays_spent(
    v: DropStoreV,
    t: Seq<char>,
    t2: Seq<char>,
    d: u128,
    data_id: Seq<char>,
    cid: Seq<char>,
)
    requires
        wf_view(v),
        !v.keys.contains_key(t),
        t2 != t,
    ensures
        !add_drop_step(v, data_id, cid).keys.contains_key(t),
        !add_key_step(v, d, t2).keys.contains_key(t),
        v.keys.contains_key(t2) ==> !revoke_step(v, t2).keys.contains_key(t),
        v.drops.contains_key(d) ==> !remove_drop_step(v, d).keys.contains_key(t),
{
}

} // verus!
