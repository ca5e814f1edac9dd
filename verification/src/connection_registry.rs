//! A shared map from timelines to lists of entries: entries are registered under a
//! fresh id, and a guard takes them out again. It holds the state of receivers and
//! senders of the log.
use crate::ids::{TenantTimelineId, ZTenantId, ZTimelineId};
use parking_lot::{RwLock, RwLockWriteGuard};
use std::collections::BTreeMap;
use std::sync::Arc;
use vstd::prelude::*;

verus! {

broadcast use vstd::laws_cmp::group_laws_cmp;

/// The id of an entry, unique among the entries of a timeline.
pub type EntryId = u32;

/// The number of ids.
pub const ID_COUNT: u64 = 0x1_0000_0000;

/// An entry: its id, and what was registered.
pub struct Entry<T> {
    pub id: EntryId,
    pub data: Arc<T>,
}

impl<T> Clone for Entry<T> {
    fn clone(&self) -> (copy: Self)
        ensures
            copy == *self,
    {
        Entry { id: self.id, data: self.data.clone() }
    }
}

/// The lists of entries, by tenant and timeline.
pub type EntryLists<T> = Map<(u128, u128), Seq<(EntryId, T)>>;

/// What is registered, and the id that was issued last.
#[verifier::ext_equal]
pub struct RegistryView<T> {
    pub entries: EntryLists<T>,
    pub last_issued_id: EntryId,
}

/// The key of a timeline.
pub open spec fn key_of(ttid: TenantTimelineId) -> (u128, u128) {
    (ttid.tenant_id.0, ttid.timeline_id.0)
}

/// The entries of a list.
pub open spec fn entry_list<T>(entries: Seq<Entry<T>>) -> Seq<(EntryId, T)> {
    Seq::new(entries.len(), |i: int| (entries[i].id, *entries[i].data))
}

/// Whether an entry of this id is in the list.
pub open spec fn has_id<T>(list: Seq<(EntryId, T)>, id: EntryId) -> bool {
    exists|i: int| 0 <= i < list.len() && (#[trigger] list[i]).0 == id
}

/// Whether no id occurs twice.
pub open spec fn unique_ids<T>(list: Seq<(EntryId, T)>) -> bool {
    forall|i: int, j: int|
        0 <= i < j < list.len() ==> (#[trigger] list[i]).0 != (#[trigger] list[j]).0
}

/// Tells entries of another id.
pub open spec fn other_id<T>(id: EntryId) -> spec_fn((EntryId, T)) -> bool {
    |entry: (EntryId, T)| entry.0 != id
}

/// The entries of another id.
pub open spec fn without_id<T>(list: Seq<(EntryId, T)>, id: EntryId) -> Seq<(EntryId, T)> {
    list.filter(other_id(id))
}

/// The id that is `steps` after `last`; after the greatest one comes zero.
pub open spec fn id_after(last: EntryId, steps: int) -> int {
    (last + steps) % (ID_COUNT as int)
}

/// Whether `id` is the first free one after `last`.
pub open spec fn is_next_free<T>(list: Seq<(EntryId, T)>, last: EntryId, id: EntryId) -> bool {
    &&& !has_id(list, id)
    &&& exists|steps: int|
        1 <= steps <= ID_COUNT && id == #[trigger] id_after(last, steps) && forall|k: int|
            1 <= k < steps ==> has_id(list, #[trigger] id_after(last, k) as EntryId)
}

impl<T> RegistryView<T> {
    /// No entries, and one as the first id to issue.
    pub open spec fn start() -> Self {
        RegistryView { entries: Map::empty(), last_issued_id: 0 }
    }

    /// The entries of a timeline.
    pub open spec fn entries_of(self, ttid: TenantTimelineId) -> Seq<(EntryId, T)> {
        if self.entries.contains_key(key_of(ttid)) {
            self.entries[key_of(ttid)]
        } else {
            Seq::empty()
        }
    }

    /// The lists with `list` for a timeline. A timeline without entries has none.
    pub open spec fn with_entries(
        self,
        ttid: TenantTimelineId,
        list: Seq<(EntryId, T)>,
    ) -> EntryLists<T> {
        if list.len() == 0 {
            self.entries.remove(key_of(ttid))
        } else {
            self.entries.insert(key_of(ttid), list)
        }
    }

    /// Whether no list is empty, no id occurs twice in a list, and an id is left in
    /// each.
    pub open spec fn valid(self) -> bool {
        forall|key: (u128, u128)| #[trigger]
            self.entries.contains_key(key) ==> {
                &&& 0 < self.entries[key].len() <= EntryId::MAX
                &&& unique_ids(self.entries[key])
            }
    }

    /// The state with one more entry.
    pub open spec fn registered(self, ttid: TenantTimelineId, id: EntryId, data: T) -> Self {
        RegistryView {
            entries: self.with_entries(ttid, self.entries_of(ttid).push((id, data))),
            last_issued_id: id,
        }
    }

    /// The state without the entry of this id.
    pub open spec fn unregistered(self, ttid: TenantTimelineId, id: EntryId) -> Self {
        RegistryView {
            entries: self.with_entries(ttid, without_id(self.entries_of(ttid), id)),
            last_issued_id: self.last_issued_id,
        }
    }
}

/// What is registered, and the id that was issued last.
#[verifier::reject_recursive_types(T)]
pub struct SharedState<T> {
    entries: BTreeMap<(u128, u128), Vec<Entry<T>>>,
    last_issued_id: EntryId,
}

impl<T> View for SharedState<T> {
    type V = RegistryView<T>;

    closed spec fn view(&self) -> RegistryView<T> {
        RegistryView {
            entries: self.entries@.map_values(|list: Vec<Entry<T>>| entry_list(list@)),
            last_issued_id: self.last_issued_id,
        }
    }
}

impl<T> SharedState<T> {
    #[verifier::type_invariant]
    spec fn is_valid(self) -> bool {
        self@.valid()
    }

    /// No entries.
    pub fn new() -> (state: Self)
        ensures
            state@ == RegistryView::<T>::start(),
            state@.valid(),
    {
        let entries: BTreeMap<(u128, u128), Vec<Entry<T>>> = BTreeMap::new();
        assert(entries@.map_values(|list: Vec<Entry<T>>| entry_list(list@)) =~= Map::empty());
        SharedState { entries, last_issued_id: 0 }
    }
}

/// As many different ids as are given are found only in a list that is as long.
proof fn lemma_busy_ids<T>(list: Seq<(EntryId, T)>, last: EntryId, steps: int)
    requires
        0 <= steps <= ID_COUNT,
        forall|k: int| 1 <= k <= steps ==> has_id(list, #[trigger] id_after(last, k) as EntryId),
    ensures
        steps <= list.len(),
{
    let ids = Seq::new(list.len(), |i: int| list[i].0);
    let busy = Seq::new(steps as nat, |k: int| id_after(last, k + 1) as EntryId);
    assert forall|i: int, j: int| 0 <= i < busy.len() && 0 <= j < busy.len() && i != j implies
        busy[i] != busy[j] by {}
    busy.unique_seq_to_set();
    ids.lemma_cardinality_of_set();
    assert forall|id: EntryId| busy.to_set().contains(id) implies ids.to_set().contains(id) by {
        let k = choose|k: int| 0 <= k < busy.len() && busy[k] == id;
        assert(has_id(list, id_after(last, k + 1) as EntryId));
        let i = choose|i: int| 0 <= i < list.len() && (#[trigger] list[i]).0 == id;
        assert(ids[i] == id);
    }
    vstd::set_lib::lemma_len_subset(busy.to_set(), ids.to_set());
}

/// Looks for an entry of this id.
fn holds_id<T>(list: &Vec<Entry<T>>, id: EntryId) -> (found: bool)
    ensures
        found == has_id(entry_list(list@), id),
{
    let mut i: usize = 0;
    while i < list.len()
        invariant
            i <= list@.len(),
            forall|j: int| 0 <= j < i ==> (#[trigger] entry_list(list@)[j]).0 != id,
        decreases list@.len() - i,
    {
        if list[i].id == id {
            assert(entry_list(list@)[i as int].0 == id);
            return true;
        }
        i = i + 1;
    }
    false
}

impl<T> SharedState<T> {
    /// The number of entries of a timeline.
    pub fn count(&self, ttid: TenantTimelineId) -> (n: usize)
        ensures
            n == self@.entries_of(ttid).len(),
            n <= EntryId::MAX,
            self@.valid(),
    {
        proof {
            use_type_invariant(self);
        }
        match self.entries.get(&(ttid.tenant_id.0, ttid.timeline_id.0)) {
            Some(list) => {
                assert(self@.entries.contains_key(key_of(ttid)));
                list.len()
            },
            None => 0,
        }
    }

    /// Finds an unused id, the first one after that issued last.
    pub fn issue_id(&mut self, ttid: TenantTimelineId) -> (id: EntryId)
        requires
            old(self)@.entries_of(ttid).len() < EntryId::MAX,
        ensures
            is_next_free(old(self)@.entries_of(ttid), old(self)@.last_issued_id, id),
            final(self)@ == (RegistryView { last_issued_id: id, ..old(self)@ }),
            old(self)@.valid(),
            final(self)@.valid(),
    {
        proof {
            use_type_invariant(&*self);
        }
        let last: EntryId = self.last_issued_id;
        let ghost list = self@.entries_of(ttid);
        let ghost mut steps: int = 0;
        let mut candidate: EntryId = last;
        loop
            invariant
                *self == *old(self),
                last == self@.last_issued_id,
                list == self@.entries_of(ttid),
                self@.valid(),
                list.len() < EntryId::MAX,
                0 <= steps <= list.len(),
                candidate == id_after(last, steps),
                forall|k: int|
                    1 <= k <= steps ==> has_id(list, #[trigger] id_after(last, k) as EntryId),
            decreases list.len() - steps,
        {
            candidate = candidate.wrapping_add(1);
            proof {
                steps = steps + 1;
            }
            assert(candidate == id_after(last, steps));
            let is_busy: bool = match self.entries.get(&(ttid.tenant_id.0, ttid.timeline_id.0)) {
                Some(entries) => {
                    assert(list == entry_list(entries@));
                    holds_id(entries, candidate)
                },
                None => false,
            };
            assert(is_busy == has_id(list, candidate));
            if !is_busy {
                self.last_issued_id = candidate;
                return candidate;
            }
            proof {
                lemma_busy_ids(list, last, steps);
            }
        }
    }
}

/// A filter on a sequence with one more element at its end.
proof fn lemma_filter_pushed<A>(s: Seq<A>, last: A, pred: spec_fn(A) -> bool)
    ensures
        s.push(last).filter(pred) == if pred(last) {
            s.filter(pred).push(last)
        } else {
            s.filter(pred)
        },
{
    reveal(Seq::filter);
    assert(s.push(last).drop_last() =~= s);
}

/// Taking one place out of a list without doubles leaves no doubles.
proof fn lemma_remove_unique<T>(list: Seq<(EntryId, T)>, at: int)
    requires
        0 <= at < list.len(),
        unique_ids(list),
    ensures
        unique_ids(list.remove(at)),
{
    let rest = list.remove(at);
    assert forall|i: int, j: int| 0 <= i < j < rest.len() implies (#[trigger] rest[i]).0 != (
    #[trigger] rest[j]).0 by {
        let k = if i < at { i } else { i + 1 };
        let l = if j < at { j } else { j + 1 };
        assert(rest[i] == list[k]);
        assert(rest[j] == list[l]);
    }
}

/// Taking out the entry of an id takes out one place of a list without doubles.
proof fn lemma_filter_one<T>(list: Seq<(EntryId, T)>, at: int, id: EntryId)
    requires
        0 <= at < list.len(),
        list[at].0 == id,
        unique_ids(list),
    ensures
        without_id(list, id) == list.remove(at),
        unique_ids(list.remove(at)),
{
    let pred = other_id::<T>(id);
    let front = list.take(at);
    let back = list.skip(at + 1);
    assert(front.filter(pred) == front) by {
        assert forall|i: int| 0 <= i < front.len() implies pred(#[trigger] front[i]) by {
            assert(front[i] == list[i]);
        }
        lemma_filter_all(front, pred);
    }
    assert(back.filter(pred) == back) by {
        assert forall|i: int| 0 <= i < back.len() implies pred(#[trigger] back[i]) by {
            assert(back[i] == list[at + 1 + i]);
        }
        lemma_filter_all(back, pred);
    }
    lemma_filter_pushed(front, list[at], pred);
    Seq::filter_distributes_over_add(front.push(list[at]), back, pred);
    assert(front.push(list[at]) + back =~= list);
    assert(front + back =~= list.remove(at));
    lemma_remove_unique(list, at);
}

/// A filter that holds everywhere leaves a sequence as it is.
proof fn lemma_filter_all<A>(s: Seq<A>, pred: spec_fn(A) -> bool)
    requires
        forall|i: int| 0 <= i < s.len() ==> pred(#[trigger] s[i]),
    ensures
        s.filter(pred) == s,
    decreases s.len(),
{
    reveal(Seq::filter);
    if s.len() > 0 {
        assert(pred(s[s.len() - 1]));
        lemma_filter_all(s.drop_last(), pred);
        assert(s.drop_last().push(s.last()) =~= s);
    } else {
        assert(s.filter(pred) =~= s);
    }
}

impl<T> SharedState<T> {
    /// Takes the lists out of the state, to work on them.
    fn take_entries(&mut self) -> (entries: BTreeMap<(u128, u128), Vec<Entry<T>>>)
        ensures
            entries == old(self).entries,
            final(self).entries@ == Map::<(u128, u128), Vec<Entry<T>>>::empty(),
            final(self).last_issued_id == old(self).last_issued_id,
            old(self)@.valid(),
    {
        proof {
            use_type_invariant(&*self);
        }
        let mut entries: BTreeMap<(u128, u128), Vec<Entry<T>>> = BTreeMap::new();
        std::mem::swap(&mut entries, &mut self.entries);
        entries
    }

    /// Registers a new entry under a free id.
    pub fn register(&mut self, ttid: TenantTimelineId, data: T) -> (entry: Entry<T>)
        requires
            old(self)@.entries_of(ttid).len() < EntryId::MAX,
        ensures
            is_next_free(old(self)@.entries_of(ttid), old(self)@.last_issued_id, entry.id),
            *entry.data == data,
            final(self)@ == old(self)@.registered(ttid, entry.id, data),
            old(self)@.valid(),
            final(self)@.valid(),
    {
        let id: EntryId = self.issue_id(ttid);
        let ghost before = self@;
        let entry: Entry<T> = Entry { id, data: Arc::new(data) };
        let key: (u128, u128) = (ttid.tenant_id.0, ttid.timeline_id.0);
        let mut entries: BTreeMap<(u128, u128), Vec<Entry<T>>> = self.take_entries();
        let mut list: Vec<Entry<T>> = match entries.remove(&key) {
            Some(list) => list,
            None => Vec::new(),
        };
        assert(entry_list(list@) =~= before.entries_of(ttid));
        list.push(entry.clone());
        assert(entry_list(list@) =~= before.entries_of(ttid).push((id, data)));
        entries.insert(key, list);
        proof {
            let after = before.registered(ttid, id, data);
            assert(entries@.map_values(|list: Vec<Entry<T>>| entry_list(list@)) =~= after.entries);
            assert(unique_ids(after.entries[key]));
        }
        self.entries = entries;
        entry
    }

    /// Takes an entry out.
    pub fn unregister(&mut self, ttid: TenantTimelineId, id: EntryId)
        requires
            has_id(old(self)@.entries_of(ttid), id),
        ensures
            final(self)@ == old(self)@.unregistered(ttid, id),
            old(self)@.valid(),
            final(self)@.valid(),
    {
        let ghost before = self@;
        let key: (u128, u128) = (ttid.tenant_id.0, ttid.timeline_id.0);
        let mut entries: BTreeMap<(u128, u128), Vec<Entry<T>>> = self.take_entries();
        if let Some(list) = entries.remove(&key) {
            let mut list: Vec<Entry<T>> = list;
            let ghost listed = before.entries_of(ttid);
            assert(entry_list(list@) =~= listed);
            let mut i: usize = 0;
            while list[i].id != id
                invariant
                    i < list.len(),
                    listed == entry_list(list@),
                    has_id(listed, id),
                    forall|j: int| 0 <= j < i ==> (#[trigger] listed[j]).0 != id,
                decreases list.len() - i,
            {
                proof {
                    let at = choose|at: int|
                        0 <= at < listed.len() && (#[trigger] listed[at]).0 == id;
                    assert(listed[i as int].0 != id);
                    assert(at > i);
                }
                i = i + 1;
            }
            list.remove(i);
            proof {
                lemma_filter_one(listed, i as int, id);
                assert(entry_list(list@) =~= listed.remove(i as int));
            }
            let ghost after = before.unregistered(ttid, id);
            if list.len() > 0 {
                assert(after.entries == before.entries.insert(key, entry_list(list@)));
                entries.insert(key, list);
                assert(entries@.map_values(|list: Vec<Entry<T>>| entry_list(list@))
                    =~= after.entries);
            } else {
                assert(after.entries == before.entries.remove(key));
                assert(entries@.map_values(|list: Vec<Entry<T>>| entry_list(list@))
                    =~= after.entries);
            }
        }
        self.entries = entries;
    }
}

/// Registering an entry keeps the ids of each list unique, where an id is free.
pub proof fn law_register_keeps_valid<T>(
    state: RegistryView<T>,
    ttid: TenantTimelineId,
    id: EntryId,
    data: T,
)
    requires
        state.valid(),
        state.entries_of(ttid).len() < EntryId::MAX,
        !has_id(state.entries_of(ttid), id),
    ensures
        state.registered(ttid, id, data).valid(),
{
    let after = state.registered(ttid, id, data);
    assert(unique_ids(after.entries[key_of(ttid)]));
}

/// Taking an entry out right after it was registered leaves what was there before.
pub proof fn law_unregister_undoes_register<T>(
    state: RegistryView<T>,
    ttid: TenantTimelineId,
    id: EntryId,
    data: T,
)
    requires
        state.valid(),
        !has_id(state.entries_of(ttid), id),
    ensures
        state.registered(ttid, id, data).unregistered(ttid, id).entries == state.entries,
{
    let key = key_of(ttid);
    let list = state.entries_of(ttid);
    let longer = list.push((id, data));
    let between = state.registered(ttid, id, data);
    let after = between.unregistered(ttid, id);
    assert(between.entries_of(ttid) == longer);
    assert(without_id(longer, id) == list) by {
        assert forall|i: int, j: int| 0 <= i < j < longer.len() implies (#[trigger] longer[i]).0
            != (#[trigger] longer[j]).0 by {
            assert(longer[i] == list[i]);
            if j < list.len() {
                assert(longer[j] == list[j]);
            }
        }
        lemma_filter_one(longer, list.len() as int, id);
        assert(longer.remove(list.len() as int) =~= list);
    }
    if state.entries.contains_key(key) {
        assert(after.entries == state.entries.insert(key, longer).insert(key, list));
    } else {
        assert(after.entries == state.entries.insert(key, longer).remove(key));
    }
    assert(after.entries =~= state.entries);
}

/// The entries of other timelines do not change.
pub proof fn law_other_timelines_do_not_change<T>(
    state: RegistryView<T>,
    ttid: TenantTimelineId,
    id: EntryId,
    data: T,
    other: TenantTimelineId,
)
    requires
        other != ttid,
    ensures
        state.registered(ttid, id, data).entries_of(other) == state.entries_of(other),
        state.unregistered(ttid, id).entries_of(other) == state.entries_of(other),
{
    assert(key_of(other) != key_of(ttid));
}

/// Taking an entry out leaves every other entry of its timeline, in the same order,
/// and no entry of its id.
pub proof fn law_unregister_takes_one_out<T>(
    state: RegistryView<T>,
    ttid: TenantTimelineId,
    at: int,
)
    requires
        state.valid(),
        0 <= at < state.entries_of(ttid).len(),
    ensures
        ({
            let id = state.entries_of(ttid)[at].0;
            let after = state.unregistered(ttid, id);
            &&& after.valid()
            &&& after.entries_of(ttid) == state.entries_of(ttid).remove(at)
            &&& !has_id(after.entries_of(ttid), id)
        }),
{
    let list = state.entries_of(ttid);
    let id = list[at].0;
    lemma_filter_one(list, at, id);
    let rest = list.remove(at);
    assert forall|i: int| 0 <= i < rest.len() implies (#[trigger] rest[i]).0 != id by {
        if i < at {
            assert(rest[i] == list[i]);
        } else {
            assert(rest[i] == list[i + 1]);
        }
    }
    assert(state.unregistered(ttid, id).entries_of(ttid) =~= rest);
}

/// The next free id is determined by the entries and the id issued last.
pub proof fn law_next_id_is_determined<T>(
    list: Seq<(EntryId, T)>,
    last: EntryId,
    a: EntryId,
    b: EntryId,
)
    requires
        is_next_free(list, last, a),
        is_next_free(list, last, b),
    ensures
        a == b,
{
}

/// An id is not issued twice in a row, even where its entry is gone.
pub proof fn law_id_is_not_reused_at_once<T>(list: Seq<(EntryId, T)>, last: EntryId, id: EntryId)
    requires
        list.len() < EntryId::MAX,
        is_next_free(list, last, id),
    ensures
        id != last,
{
    if id == last {
        let steps = choose|steps: int|
            1 <= steps <= ID_COUNT && id == #[trigger] id_after(last, steps) && forall|k: int|
                1 <= k < steps ==> has_id(list, #[trigger] id_after(last, k) as EntryId);
        assert(steps == ID_COUNT);
        lemma_busy_ids(list, last, steps - 1);
    }
}

/// The lock of `lock_api`, which `parking_lot` re-exports.
#[verifier::external_type_specification]
#[verifier::external_body]
#[verifier::reject_recursive_types(R)]
#[verifier::reject_recursive_types(T)]
pub struct ExRwLock<R, T: ?Sized>(parking_lot::lock_api::RwLock<R, T>);

/// The mechanism by which the lock of `parking_lot` waits.
#[verifier::external_type_specification]
#[verifier::external_body]
pub struct ExRawRwLock(parking_lot::RawRwLock);

/// Puts a state behind a lock: `RwLock::new` of `parking_lot`. Nothing is claimed of
/// the result: what is behind the lock changes from one access to the next.
#[verifier::external_body]
fn lock_state<T>(state: SharedState<T>) -> RwLock<SharedState<T>> {
    RwLock::new(state)
}

/// Exclusive access to the state behind a lock: the `RwLockWriteGuard` of
/// `parking_lot`. The access ends when the value is dropped.
#[verifier::external_body]
#[verifier::reject_recursive_types(T)]
pub struct HeldState<'a, T> {
    guard: RwLockWriteGuard<'a, SharedState<T>>,
}

/// Waits for exclusive access to the state behind a lock: `RwLock::write` of
/// `parking_lot`. Nothing is claimed of the result: which state is found, the other
/// holders of the lock decide. Each caller takes the access once, and gives it up
/// before it returns.
#[verifier::external_body]
fn hold_state<'a, T>(lock: &'a RwLock<SharedState<T>>) -> HeldState<'a, T> {
    HeldState { guard: lock.write() }
}

/// The state to which there is exclusive access: `DerefMut::deref_mut` of the
/// `RwLockWriteGuard` of `parking_lot`. Nothing is claimed of the state, for the same
/// reason.
#[verifier::external_body]
fn held_state<'b, 'a, T>(held: &'b mut HeldState<'a, T>) -> &'b mut SharedState<T> {
    &mut *held.guard
}

/// The registry. Its clones share one state.
#[verifier::reject_recursive_types(T)]
pub struct ConnectionRegistry<T> {
    registry: Arc<RwLock<SharedState<T>>>,
}

impl<T> Clone for ConnectionRegistry<T> {
    fn clone(&self) -> (copy: Self)
        ensures
            copy == *self,
    {
        ConnectionRegistry { registry: self.registry.clone() }
    }
}

/// What a registration does to a state: `None` where the timeline has no free id,
/// else a new entry under the next free id.
pub open spec fn register_step<T>(
    before: RegistryView<T>,
    after: RegistryView<T>,
    ttid: TenantTimelineId,
    data: T,
    entry: Option<Entry<T>>,
) -> bool {
    &&& before.valid()
    &&& after.valid()
    &&& match entry {
        Some(entry) => {
            &&& before.entries_of(ttid).len() < EntryId::MAX
            &&& is_next_free(before.entries_of(ttid), before.last_issued_id, entry.id)
            &&& *entry.data == data
            &&& after == before.registered(ttid, entry.id, data)
        },
        None => before.entries_of(ttid).len() == EntryId::MAX && after == before,
    }
}

/// What taking an entry out does to a state.
pub open spec fn unregister_step<T>(
    before: RegistryView<T>,
    after: RegistryView<T>,
    ttid: TenantTimelineId,
    id: EntryId,
    found: bool,
) -> bool {
    &&& before.valid()
    &&& after.valid()
    &&& found == has_id(before.entries_of(ttid), id)
    &&& after == if found {
        before.unregistered(ttid, id)
    } else {
        before
    }
}

/// An entry is there once it is registered, and no earlier one had its id.
pub proof fn law_registered_entry_is_there<T>(
    before: RegistryView<T>,
    after: RegistryView<T>,
    ttid: TenantTimelineId,
    data: T,
    entry: Entry<T>,
)
    requires
        register_step(before, after, ttid, data, Some(entry)),
    ensures
        !has_id(before.entries_of(ttid), entry.id),
        has_id(after.entries_of(ttid), entry.id),
        after.entries_of(ttid).last() == (entry.id, data),
{
    let list = after.entries_of(ttid);
    assert(list[list.len() - 1].0 == entry.id);
}

/// An entry stays where it is while others are registered.
pub proof fn law_entry_stays_while_others_come<T>(
    before: RegistryView<T>,
    after: RegistryView<T>,
    ttid: TenantTimelineId,
    id: EntryId,
    other: TenantTimelineId,
    data: T,
    entry: Option<Entry<T>>,
)
    requires
        has_id(before.entries_of(ttid), id),
        register_step(before, after, other, data, entry),
    ensures
        has_id(after.entries_of(ttid), id),
{
    let list = before.entries_of(ttid);
    let i = choose|i: int| 0 <= i < list.len() && (#[trigger] list[i]).0 == id;
    assert(after.entries_of(ttid)[i] == list[i]) by {
        if other != ttid {
            assert(key_of(other) != key_of(ttid));
        }
    }
}

/// An entry stays where it is while others are taken out. So the one who registered
/// an entry, and alone takes it out, finds it.
pub proof fn law_entry_stays_while_others_go<T>(
    before: RegistryView<T>,
    after: RegistryView<T>,
    ttid: TenantTimelineId,
    id: EntryId,
    other: TenantTimelineId,
    other_id: EntryId,
    found: bool,
)
    requires
        has_id(before.entries_of(ttid), id),
        unregister_step(before, after, other, other_id, found),
        other != ttid || other_id != id,
    ensures
        has_id(after.entries_of(ttid), id),
{
    let list = before.entries_of(ttid);
    let i = choose|i: int| 0 <= i < list.len() && (#[trigger] list[i]).0 == id;
    if other != ttid {
        assert(key_of(other) != key_of(ttid));
    } else if found {
        let at = choose|at: int| 0 <= at < list.len() && (#[trigger] list[at]).0 == other_id;
        law_unregister_takes_one_out(before, ttid, at);
        let rest = list.remove(at);
        assert(rest[if i < at { i } else { i - 1 }] == list[i]);
    }
}

/// Registrations draw their ids from one counter, whatever their timelines are: the
/// id of the later one is the first free one after that of the earlier one, and the
/// very next one where its timeline does not have that.
pub proof fn law_registrations_share_one_counter<T>(
    before: RegistryView<T>,
    between: RegistryView<T>,
    after: RegistryView<T>,
    first_ttid: TenantTimelineId,
    first_data: T,
    first: Entry<T>,
    second_ttid: TenantTimelineId,
    second_data: T,
    second: Entry<T>,
)
    requires
        register_step(before, between, first_ttid, first_data, Some(first)),
        register_step(between, after, second_ttid, second_data, Some(second)),
    ensures
        is_next_free(between.entries_of(second_ttid), first.id, second.id),
        !has_id(between.entries_of(second_ttid), id_after(first.id, 1) as EntryId) ==> second.id
            == id_after(first.id, 1),
        after.last_issued_id == second.id,
        first_ttid == second_ttid ==> first.id != second.id && has_id(
            after.entries_of(first_ttid),
            first.id,
        ) && has_id(after.entries_of(first_ttid), second.id),
{
    let list = between.entries_of(second_ttid);
    let next = id_after(first.id, 1);
    if !has_id(list, next as EntryId) {
        assert(is_next_free(list, first.id, next as EntryId));
        law_next_id_is_determined(list, first.id, next as EntryId, second.id);
    }
    if first_ttid == second_ttid {
        law_registered_entry_is_there(before, between, first_ttid, first_data, first);
        law_registered_entry_is_there(between, after, second_ttid, second_data, second);
        law_entry_stays_while_others_come(
            between,
            after,
            first_ttid,
            first.id,
            second_ttid,
            second_data,
            Some(second),
        );
    }
}

/// What one access does to a state.
pub enum RegistryStep<T> {
    /// A registration, with the entry that it gives.
    Register { ttid: TenantTimelineId, data: T, entry: Option<Entry<T>> },
    /// Taking an entry out.
    Unregister { ttid: TenantTimelineId, id: EntryId, found: bool },
}

impl<T> RegistryStep<T> {
    /// Whether the step leads from one state to the other.
    pub open spec fn leads(self, before: RegistryView<T>, after: RegistryView<T>) -> bool {
        match self {
            RegistryStep::Register { ttid, data, entry } => register_step(
                before,
                after,
                ttid,
                data,
                entry,
            ),
            RegistryStep::Unregister { ttid, id, found } => unregister_step(
                before,
                after,
                ttid,
                id,
                found,
            ),
        }
    }

    /// Whether the step takes the entry of this id out of this timeline.
    pub open spec fn takes_out(self, ttid: TenantTimelineId, id: EntryId) -> bool {
        self matches RegistryStep::Unregister { ttid: from, id: out, .. } && from == ttid && out
            == id
    }

    /// Whether the step registers an entry of this id under this timeline.
    pub open spec fn issues(self, ttid: TenantTimelineId, id: EntryId) -> bool {
        self matches RegistryStep::Register { ttid: to, entry: Some(entry), .. } && to == ttid
            && entry.id == id
    }
}

/// Whether each state follows the one before it by the step between them. The steps
/// may be those of several threads: each is taken with exclusive access.
pub open spec fn is_history<T>(states: Seq<RegistryView<T>>, steps: Seq<RegistryStep<T>>) -> bool {
    &&& states.len() == steps.len() + 1
    &&& forall|k: int|
        0 <= k < steps.len() ==> (#[trigger] steps[k]).leads(states[k], states[k + 1])
}

/// Over one step, an entry stays with its data unless it is taken out, and no entry
/// is registered under its id.
proof fn lemma_entry_stays<T>(
    before: RegistryView<T>,
    after: RegistryView<T>,
    step: RegistryStep<T>,
    ttid: TenantTimelineId,
    id: EntryId,
    data: T,
)
    requires
        step.leads(before, after),
        before.entries_of(ttid).contains((id, data)),
        !step.takes_out(ttid, id),
    ensures
        after.entries_of(ttid).contains((id, data)),
        !step.issues(ttid, id),
{
    let list = before.entries_of(ttid);
    let i = choose|i: int| 0 <= i < list.len() && list[i] == (id, data);
    assert(list[i].0 == id);
    match step {
        RegistryStep::Register { ttid: to, data: new, entry } => {
            if to != ttid {
                assert(key_of(to) != key_of(ttid));
            }
            assert(after.entries_of(ttid)[i] == list[i]);
        },
        RegistryStep::Unregister { ttid: from, id: out, found } => {
            if from != ttid {
                assert(key_of(from) != key_of(ttid));
            } else if found {
                let at = choose|at: int| 0 <= at < list.len() && (#[trigger] list[at]).0 == out;
                law_unregister_takes_one_out(before, ttid, at);
                let rest = list.remove(at);
                assert(rest[if i < at { i } else { i - 1 }] == list[i]);
            }
        },
    }
}

/// In every history, an entry stays with its data until its own id is taken out of
/// its timeline, and until that no registration under the timeline gives its id.
pub proof fn law_entry_stays_until_taken_out<T>(
    states: Seq<RegistryView<T>>,
    steps: Seq<RegistryStep<T>>,
    from: int,
    to: int,
    ttid: TenantTimelineId,
    id: EntryId,
    data: T,
)
    requires
        is_history(states, steps),
        0 <= from <= to < states.len(),
        states[from].entries_of(ttid).contains((id, data)),
        forall|k: int| from <= k < to ==> !(#[trigger] steps[k]).takes_out(ttid, id),
    ensures
        states[to].entries_of(ttid).contains((id, data)),
        forall|k: int| from <= k < to ==> !(#[trigger] steps[k]).issues(ttid, id),
    decreases to - from,
{
    if from < to {
        let last = to - 1;
        law_entry_stays_until_taken_out(states, steps, from, last, ttid, id, data);
        assert(steps[last].leads(states[last], states[last + 1]));
        lemma_entry_stays(states[last], states[to], steps[last], ttid, id, data);
    }
}

/// In every history, two registrations under one timeline give different ids where
/// the entry of the earlier one was not taken out before the later one. Both entries
/// are there, each once and with its data, as long as neither is taken out.
pub proof fn law_entries_alive_together_differ<T>(
    states: Seq<RegistryView<T>>,
    steps: Seq<RegistryStep<T>>,
    first: int,
    second: int,
    now: int,
    ttid: TenantTimelineId,
    first_data: T,
    first_entry: Entry<T>,
    second_data: T,
    second_entry: Entry<T>,
)
    requires
        is_history(states, steps),
        0 <= first < second < now < states.len(),
        steps[first] == (RegistryStep::Register {
            ttid,
            data: first_data,
            entry: Some(first_entry),
        }),
        steps[second] == (RegistryStep::Register {
            ttid,
            data: second_data,
            entry: Some(second_entry),
        }),
        forall|k: int| first < k < now ==> !(#[trigger] steps[k]).takes_out(ttid, first_entry.id),
        forall|k: int| second < k < now ==> !(#[trigger] steps[k]).takes_out(ttid, second_entry.id),
    ensures
        first_entry.id != second_entry.id,
        states[now].entries_of(ttid).contains((first_entry.id, first_data)),
        states[now].entries_of(ttid).contains((second_entry.id, second_data)),
        unique_ids(states[now].entries_of(ttid)),
{
    assert(steps[first].leads(states[first], states[first + 1]));
    assert(steps[second].leads(states[second], states[second + 1]));
    law_registered_entry_is_there(
        states[first],
        states[first + 1],
        ttid,
        first_data,
        first_entry,
    );
    law_registered_entry_is_there(
        states[second],
        states[second + 1],
        ttid,
        second_data,
        second_entry,
    );
    law_entry_stays_until_taken_out(
        states,
        steps,
        first + 1,
        now,
        ttid,
        first_entry.id,
        first_data,
    );
    law_entry_stays_until_taken_out(
        states,
        steps,
        second + 1,
        now,
        ttid,
        second_entry.id,
        second_data,
    );
    assert(steps[second].issues(ttid, second_entry.id));
    assert(steps[now - 1].leads(states[now - 1], states[now]));
}

/// How many of the steps are registrations.
pub open spec fn registrations<T>(steps: Seq<RegistryStep<T>>) -> nat
    decreases steps.len(),
{
    if steps.len() == 0 {
        0
    } else if steps.last() is Register {
        registrations(steps.drop_last()) + 1
    } else {
        registrations(steps.drop_last())
    }
}

/// Whether `n` was issued last, and each timeline has at most `n` entries, with ids
/// of at most `n`.
spec fn counted_to<T>(state: RegistryView<T>, n: nat) -> bool {
    &&& state.last_issued_id == n
    &&& forall|ttid: TenantTimelineId| (#[trigger] state.entries_of(ttid)).len() <= n
    &&& forall|ttid: TenantTimelineId, i: int|
        0 <= i < state.entries_of(ttid).len() ==> (#[trigger] state.entries_of(ttid)[i]).0 <= n
}

proof fn lemma_count_step<T>(
    before: RegistryView<T>,
    after: RegistryView<T>,
    step: RegistryStep<T>,
    n: nat,
)
    requires
        step.leads(before, after),
        counted_to(before, n),
        step is Register ==> n < EntryId::MAX,
    ensures
        step matches RegistryStep::Register { entry, .. } ==> entry is Some && entry->0.id == n + 1,
        counted_to(after, if step is Register { n + 1 } else { n }),
{
    match step {
        RegistryStep::Register { ttid, data, entry } => {
            let list = before.entries_of(ttid);
            assert(list.len() <= n);
            let next = id_after(n as EntryId, 1);
            assert(!has_id(list, next as EntryId)) by {
                assert forall|i: int| 0 <= i < list.len() implies (#[trigger] list[i]).0
                    != next by {
                    assert(before.entries_of(ttid)[i].0 <= n);
                }
            }
            assert(is_next_free(list, n as EntryId, next as EntryId));
            law_next_id_is_determined(list, n as EntryId, next as EntryId, entry->0.id);
            assert forall|t: TenantTimelineId| #[trigger] after.entries_of(t) == if t == ttid {
                list.push(((n + 1) as EntryId, data))
            } else {
                before.entries_of(t)
            } by {
                if t != ttid {
                    assert(key_of(t) != key_of(ttid));
                }
            }
            assert forall|t: TenantTimelineId, i: int|
                0 <= i < after.entries_of(t).len() implies (#[trigger] after.entries_of(t)[i]).0
                <= n + 1 by {
                if t == ttid && i == list.len() {
                } else {
                    assert(before.entries_of(t)[i].0 <= n);
                }
            }
        },
        RegistryStep::Unregister { ttid, id, found } => {
            if found {
                let list = before.entries_of(ttid);
                let at = choose|at: int| 0 <= at < list.len() && (#[trigger] list[at]).0 == id;
                law_unregister_takes_one_out(before, ttid, at);
                assert forall|t: TenantTimelineId| #[trigger] after.entries_of(t) == if t == ttid {
                    list.remove(at)
                } else {
                    before.entries_of(t)
                } by {
                    if t != ttid {
                        assert(key_of(t) != key_of(ttid));
                    }
                }
                assert forall|t: TenantTimelineId, i: int|
                    0 <= i < after.entries_of(t).len() implies (#[trigger] after.entries_of(t)[i]).0
                    <= n by {
                    if t == ttid && i >= at {
                        assert(before.entries_of(t)[i + 1].0 <= n);
                    } else {
                        assert(before.entries_of(t)[i].0 <= n);
                    }
                }
                assert forall|t: TenantTimelineId| (#[trigger] after.entries_of(t)).len() <= n by {
                    assert(before.entries_of(t).len() <= n);
                }
            }
        },
    }
}

proof fn lemma_counted_to<T>(
    states: Seq<RegistryView<T>>,
    steps: Seq<RegistryStep<T>>,
    k: int,
)
    requires
        is_history(states, steps),
        states[0] == RegistryView::<T>::start(),
        0 <= k <= steps.len(),
        registrations(steps.take(k)) <= EntryId::MAX,
    ensures
        counted_to(states[k], registrations(steps.take(k))),
    decreases k,
{
    if k > 0 {
        assert(steps.take(k).drop_last() =~= steps.take(k - 1));
        assert(steps.take(k).last() == steps[k - 1]);
        lemma_counted_to(states, steps, k - 1);
        assert(steps[k - 1].leads(states[k - 1], states[k - 1 + 1]));
        lemma_count_step(
            states[k - 1],
            states[k],
            steps[k - 1],
            registrations(steps.take(k - 1)),
        );
    }
}

/// From the start on, registrations give the ids one, two, three and so on, whatever
/// their timelines are and whatever is taken out between them, as long as the ids do
/// not run out.
pub proof fn law_ids_count_up_from_the_start<T>(
    states: Seq<RegistryView<T>>,
    steps: Seq<RegistryStep<T>>,
    k: int,
)
    requires
        is_history(states, steps),
        states[0] == RegistryView::<T>::start(),
        0 <= k < steps.len(),
        registrations(steps.take(k)) < EntryId::MAX,
    ensures
        steps[k] matches RegistryStep::Register { entry, .. } ==> entry is Some && entry->0.id
            == registrations(steps.take(k)) + 1,
{
    lemma_counted_to(states, steps, k);
    assert(steps[k].leads(states[k], states[k + 1]));
    lemma_count_step(states[k], states[k + 1], steps[k], registrations(steps.take(k)));
}

impl<T> SharedState<T> {
    /// Whether a timeline has an entry of this id.
    pub fn contains(&self, ttid: TenantTimelineId, id: EntryId) -> (found: bool)
        ensures
            found == has_id(self@.entries_of(ttid), id),
            self@.valid(),
    {
        proof {
            use_type_invariant(self);
        }
        match self.entries.get(&(ttid.tenant_id.0, ttid.timeline_id.0)) {
            Some(list) => {
                assert(self@.entries.contains_key(key_of(ttid)));
                holds_id(list, id)
            },
            None => false,
        }
    }

    /// Registers an entry where an id is free.
    pub fn try_register(&mut self, ttid: TenantTimelineId, data: T) -> (entry: Option<Entry<T>>)
        ensures
            register_step(old(self)@, final(self)@, ttid, data, entry),
    {
        if self.count(ttid) == EntryId::MAX as usize {
            return None;
        }
        Some(self.register(ttid, data))
    }

    /// Takes an entry out where there is one of this id.
    pub fn try_unregister(&mut self, ttid: TenantTimelineId, id: EntryId) -> (found: bool)
        ensures
            unregister_step(old(self)@, final(self)@, ttid, id, found),
    {
        if !self.contains(ttid, id) {
            return false;
        }
        self.unregister(ttid, id);
        true
    }
}

/// Whether `state` is the state to which `held` gives access.
pub closed spec fn is_state_of<T>(held: &mut HeldState<T>, state: &mut SharedState<T>) -> bool {
    call_ensures(held_state::<T>, (held,), state)
}

/// Ends the access to a state.
fn give_up<T>(held: HeldState<T>) {
}

/// Whether the access was ended as it was left: it is not used for anything after.
pub closed spec fn is_given_up<T>(held: HeldState<T>) -> bool {
    call_ensures(give_up::<T>, (held,), ())
}

/// Calls `f` on `a` as a value, which keeps in view what `f` was called on.
fn call_on<A, B, F: FnOnce(A) -> B>(a: A, f: F) -> (b: B)
    requires
        call_requires(f, (a,)),
    ensures
        call_ensures(f, (a,), b),
{
    f(a)
}

impl<T> ConnectionRegistry<T> {
    /// Whether the lock of the registry is one that `lock_state` makes of this state:
    /// the state from which all that is registered and taken out goes on.
    pub closed spec fn starts_from(self, start: RegistryView<T>) -> bool {
        exists|state: SharedState<T>|
            state@ == start && #[trigger] call_ensures(lock_state::<T>, (state,), *self.registry)
    }

    /// A registry that starts without entries, and with one as the first id to issue.
    pub fn new() -> (registry: Self)
        ensures
            registry.starts_from(RegistryView::start()),
    {
        let state: SharedState<T> = SharedState::new();
        let ghost start = state;
        let lock: RwLock<SharedState<T>> = call_on(state, lock_state::<T>);
        let registry = ConnectionRegistry { registry: Arc::new(lock) };
        assert(call_ensures(lock_state::<T>, (start,), *registry.registry));
        registry
    }

    /// Whether access to the state of the registry gave `held`, through the lock that
    /// this registry and its clones share.
    pub closed spec fn gave_access(self, held: HeldState<T>) -> bool {
        call_ensures(hold_state::<T>, (&*self.registry,), held)
    }

    /// Registers an entry. The guard stands for it, and takes it out again. There is
    /// none where the timeline has no free id.
    pub fn register(&self, ttid: TenantTimelineId, data: T) -> (guard: Option<EntryGuard<T>>)
        ensures
            match guard {
                Some(guard) => {
                    &&& guard.ttid() == ttid
                    &&& guard.registry() == *self
                    &&& guard.data() == data
                    &&& exists|held: &mut HeldState<T>, state: &mut SharedState<T>, entry: Entry<T>|
                        {
                            &&& self.gave_access(*held)
                            &&& #[trigger] is_state_of(held, state)
                            &&& entry.id == guard.id()
                            &&& #[trigger] register_step(
                                state@,
                                final(state)@,
                                ttid,
                                data,
                                Some(entry),
                            )
                            &&& is_given_up(*final(held))
                        }
                },
                None => exists|held: &mut HeldState<T>, state: &mut SharedState<T>|
                    {
                        &&& self.gave_access(*held)
                        &&& #[trigger] is_state_of(held, state)
                        &&& register_step(state@, final(state)@, ttid, data, None)
                        &&& is_given_up(*final(held))
                    },
            },
    {
        let mut held: HeldState<T> = call_on(&*self.registry, hold_state::<T>);
        let access = &mut held;
        let ghost access_before = access;
        assert(self.gave_access(*access_before));
        let state = call_on(access, held_state::<T>);
        let ghost state_before = state;
        assert(is_state_of(access_before, state_before));
        let entry: Option<Entry<T>> = state.try_register(ttid, data);
        assert(register_step(state_before@, final(state_before)@, ttid, data, entry));
        call_on(held, give_up::<T>);
        assert(is_given_up(*final(access_before)));
        match entry {
            Some(entry) => Some(
                EntryGuard { ttid, id: entry.id, registry: self.clone(), data: entry.data },
            ),
            None => None,
        }
    }

    /// Takes an entry out. The result tells whether there was one.
    fn unregister(&self, ttid: TenantTimelineId, id: EntryId) -> (found: bool)
        ensures
            exists|held: &mut HeldState<T>, state: &mut SharedState<T>|
                {
                    &&& self.gave_access(*held)
                    &&& #[trigger] is_state_of(held, state)
                    &&& unregister_step(state@, final(state)@, ttid, id, found)
                    &&& is_given_up(*final(held))
                },
    {
        let mut held: HeldState<T> = call_on(&*self.registry, hold_state::<T>);
        let access = &mut held;
        let ghost access_before = access;
        assert(self.gave_access(*access_before));
        let state = call_on(access, held_state::<T>);
        let ghost state_before = state;
        assert(is_state_of(access_before, state_before));
        let found: bool = state.try_unregister(ttid, id);
        assert(unregister_step(state_before@, final(state_before)@, ttid, id, found));
        call_on(held, give_up::<T>);
        assert(is_given_up(*final(access_before)));
        found
    }
}

/// Clones are one registry: they start from the same state, and what gives access to
/// the state of one gives access to the state of the other, so that what is
/// registered or taken out through one is registered or taken out in the other.
pub proof fn law_clones_share_one_registry<T>(
    registry: ConnectionRegistry<T>,
    copy: ConnectionRegistry<T>,
)
    requires
        call_ensures(ConnectionRegistry::<T>::clone, (&registry,), copy),
    ensures
        forall|start: RegistryView<T>| #[trigger]
            copy.starts_from(start) == registry.starts_from(start),
        forall|held: HeldState<T>| #[trigger]
            copy.gave_access(held) == registry.gave_access(held),
{
}

/// The first two registrations in a new registry have the ids one and two, whichever
/// of its clones makes them, and whatever their timelines are: where the first access
/// finds the state that the registry starts from, and the second access the state
/// that the first one leaves. Both accesses are to the lock of the one registry.
pub proof fn law_first_ids_through_clones<T>(
    registry: ConnectionRegistry<T>,
    first: ConnectionRegistry<T>,
    second: ConnectionRegistry<T>,
    first_ttid: TenantTimelineId,
    first_data: T,
    second_ttid: TenantTimelineId,
    second_data: T,
)
    requires
        registry.starts_from(RegistryView::start()),
        first == registry || call_ensures(
            ConnectionRegistry::<T>::clone,
            (&registry,),
            first,
        ),
        second == registry || call_ensures(
            ConnectionRegistry::<T>::clone,
            (&registry,),
            second,
        ),
    ensures
        first.starts_from(RegistryView::start()),
        second.starts_from(RegistryView::start()),
        forall|
            first_held: &mut HeldState<T>,
            first_state: &mut SharedState<T>,
            first_entry: Option<Entry<T>>,
            second_held: &mut HeldState<T>,
            second_state: &mut SharedState<T>,
            second_entry: Option<Entry<T>>,
        |
            {
                &&& first.gave_access(*first_held)
                &&& #[trigger] is_state_of(first_held, first_state)
                &&& first_state@ == RegistryView::<T>::start()
                &&& #[trigger] register_step(
                    first_state@,
                    final(first_state)@,
                    first_ttid,
                    first_data,
                    first_entry,
                )
                &&& second.gave_access(*second_held)
                &&& #[trigger] is_state_of(second_held, second_state)
                &&& second_state@ == final(first_state)@
                &&& #[trigger] register_step(
                    second_state@,
                    final(second_state)@,
                    second_ttid,
                    second_data,
                    second_entry,
                )
            } ==> {
                &&& registry.gave_access(*first_held)
                &&& registry.gave_access(*second_held)
                &&& first_entry matches Some(entry) && entry.id == 1
                &&& second_entry matches Some(entry) && entry.id == 2
            },
{
    assert forall|
        before: RegistryView<T>,
        between: RegistryView<T>,
        after: RegistryView<T>,
        first_entry: Option<Entry<T>>,
        second_entry: Option<Entry<T>>,
    |
        before == RegistryView::<T>::start() && #[trigger] register_step(
            before,
            between,
            first_ttid,
            first_data,
            first_entry,
        ) && #[trigger] register_step(
            between,
            after,
            second_ttid,
            second_data,
            second_entry,
        ) implies first_entry is Some && first_entry->0.id == 1 && second_entry is Some
        && second_entry->0.id == 2 by {
        let one = RegistryStep::Register {
            ttid: first_ttid,
            data: first_data,
            entry: first_entry,
        };
        let two = RegistryStep::Register {
            ttid: second_ttid,
            data: second_data,
            entry: second_entry,
        };
        let states = seq![before, between, after];
        let steps = seq![one, two];
        reveal_with_fuel(registrations, 3);
        assert(steps.take(0) =~= Seq::empty());
        assert(steps.take(1) =~= seq![one]);
        assert(steps.take(1).last() is Register);
        assert(steps.take(1).drop_last() =~= Seq::empty());
        law_ids_count_up_from_the_start(states, steps, 0);
        law_ids_count_up_from_the_start(states, steps, 1);
    }
}

/// A registered entry.
#[verifier::reject_recursive_types(T)]
pub struct EntryGuard<T> {
    ttid: TenantTimelineId,
    id: EntryId,
    registry: ConnectionRegistry<T>,
    data: Arc<T>,
}

impl<T> EntryGuard<T> {
    /// The timeline of the entry.
    pub closed spec fn ttid(self) -> TenantTimelineId {
        self.ttid
    }

    /// The id of the entry.
    pub closed spec fn id(self) -> EntryId {
        self.id
    }

    /// The registry of the entry.
    pub closed spec fn registry(self) -> ConnectionRegistry<T> {
        self.registry
    }

    /// What was registered.
    pub closed spec fn data(self) -> T {
        *self.data
    }

    /// Returns the id of the entry.
    pub fn get_id(&self) -> (id: EntryId)
        ensures
            id == self.id(),
    {
        self.id
    }

    /// Takes the entry out of its registry. The result tells whether it was there.
    pub fn release(&self) -> (found: bool)
        ensures
            exists|held: &mut HeldState<T>, state: &mut SharedState<T>|
                {
                    &&& self.registry().gave_access(*held)
                    &&& #[trigger] is_state_of(held, state)
                    &&& unregister_step(state@, final(state)@, self.ttid(), self.id(), found)
                    &&& is_given_up(*final(held))
                },
    {
        assert(self.ttid() == self.ttid && self.id() == self.id);
        self.registry.unregister(self.ttid, self.id)
    }
}

/// Timelines are kept apart by tenant and timeline.
pub proof fn law_keys_of_timelines(a: TenantTimelineId, b: TenantTimelineId)
    ensures
        key_of(a) == key_of(b) <==> a.tenant_id == b.tenant_id && a.timeline_id == b.timeline_id,
{
}

/// An entry of an id is in a list if and only if one of its places has the id. No id
/// occurs twice if and only if different places have different ids.
pub proof fn law_ids_in_a_list<T>(list: Seq<(EntryId, T)>, id: EntryId)
    ensures
        has_id(list, id) <==> exists|i: int| 0 <= i < list.len() && (#[trigger] list[i]).0 == id,
        unique_ids(list) <==> forall|i: int, j: int|
            0 <= i < list.len() && 0 <= j < list.len() && i != j ==> (#[trigger] list[i]).0 != (
            #[trigger] list[j]).0,
{
    if unique_ids(list) {
        assert forall|i: int, j: int|
            0 <= i < list.len() && 0 <= j < list.len() && i != j implies (#[trigger] list[i]).0 != (
        #[trigger] list[j]).0 by {
            if j < i {
                assert(list[j].0 != list[i].0);
            }
        }
    }
}

/// A state is valid if and only if the entries of each timeline have different ids, are
/// not as many as there are ids, and are kept under no key where there are none.
pub proof fn law_valid_states<T>(state: RegistryView<T>)
    ensures
        state.valid() <==> forall|ttid: TenantTimelineId|
            #![trigger state.entries_of(ttid)]
            {
                &&& state.entries_of(ttid).len() <= EntryId::MAX
                &&& unique_ids(state.entries_of(ttid))
                &&& state.entries.contains_key((ttid.tenant_id.0, ttid.timeline_id.0))
                    ==> state.entries_of(ttid).len() > 0
            },
{
    if forall|ttid: TenantTimelineId|
        #![trigger state.entries_of(ttid)]
        {
            &&& state.entries_of(ttid).len() <= EntryId::MAX
            &&& unique_ids(state.entries_of(ttid))
            &&& state.entries.contains_key((ttid.tenant_id.0, ttid.timeline_id.0))
                ==> state.entries_of(ttid).len() > 0
        } {
        assert forall|key: (u128, u128)| #[trigger] state.entries.contains_key(key) implies {
            &&& 0 < state.entries[key].len() <= EntryId::MAX
            &&& unique_ids(state.entries[key])
        } by {
            let ttid = TenantTimelineId {
                tenant_id: ZTenantId(key.0),
                timeline_id: ZTimelineId(key.1),
            };
            assert(key_of(ttid) == key);
            assert(state.entries_of(ttid) == state.entries[key]);
        }
    }
}

/// Registering adds the entry at the end of its timeline, and its id is the one that was
/// issued last. Taking an entry out does not change the id that was issued last, and
/// leaves of its timeline what has other ids, in the same order.
pub proof fn law_what_steps_change<T>(
    state: RegistryView<T>,
    ttid: TenantTimelineId,
    id: EntryId,
    data: T,
)
    ensures
        state.registered(ttid, id, data).entries_of(ttid) == state.entries_of(ttid).push(
            (id, data),
        ),
        state.registered(ttid, id, data).last_issued_id == id,
        state.unregistered(ttid, id).last_issued_id == state.last_issued_id,
        forall|entry: (EntryId, T)| #[trigger]
            state.unregistered(ttid, id).entries_of(ttid).contains(entry) <==> entry.0 != id
                && state.entries_of(ttid).contains(entry),
        RegistryView::<T>::start().last_issued_id == 0,
        forall|any: TenantTimelineId| #[trigger]
            RegistryView::<T>::start().entries_of(any).len() == 0,
{
    let list = state.entries_of(ttid);
    let rest = without_id(list, id);
    assert(state.unregistered(ttid, id).entries_of(ttid) =~= rest);
    let pred = other_id::<T>(id);
    assert forall|entry: (EntryId, T)| #[trigger] rest.contains(entry) implies entry.0 != id
        && list.contains(entry) by {
        lemma_filter_kept(list, pred, entry);
    }
    assert forall|entry: (EntryId, T)| entry.0 != id && list.contains(
        entry,
    ) implies #[trigger] rest.contains(entry) by {
        lemma_filter_kept(list, pred, entry);
    }
}

/// What a filter leaves is what it holds of.
proof fn lemma_filter_kept<A>(s: Seq<A>, pred: spec_fn(A) -> bool, a: A)
    ensures
        s.filter(pred).contains(a) <==> pred(a) && s.contains(a),
    decreases s.len(),
{
    if s.len() == 0 {
        assert(s =~= Seq::empty());
        reveal(Seq::filter);
    } else {
        let before = s.drop_last();
        lemma_filter_kept(before, pred, a);
        lemma_filter_pushed(before, s.last(), pred);
        assert(before.push(s.last()) =~= s);
        lemma_contains_pushed(before, s.last(), a);
        lemma_contains_pushed(before.filter(pred), s.last(), a);
    }
}

proof fn lemma_contains_pushed<A>(s: Seq<A>, last: A, a: A)
    ensures
        s.push(last).contains(a) <==> s.contains(a) || a == last,
{
    let longer = s.push(last);
    if s.contains(a) {
        let i = choose|i: int| 0 <= i < s.len() && s[i] == a;
        assert(longer[i] == a);
    }
    if a == last {
        assert(longer[s.len() as int] == a);
    }
}

/// How many ids stand between `last` and `id`, going up from `last` and on from zero
/// after the greatest id.
spec fn ids_between(last: EntryId, id: EntryId) -> int {
    if id > last {
        id - last - 1
    } else {
        id - last - 1 + ID_COUNT
    }
}

/// The next free id is a free id, and no free id stands nearer after the one that was
/// issued last, going up, and on from zero after the greatest id.
pub proof fn law_next_id_is_the_nearest_free_one<T>(
    list: Seq<(EntryId, T)>,
    last: EntryId,
    id: EntryId,
)
    ensures
        is_next_free(list, last, id) <==> {
            &&& !has_id(list, id)
            &&& forall|free: EntryId| !has_id(list, free) ==> if (id > last) == (free > last) {
                id <= free
            } else {
                id > last
            }
        },
{
    if is_next_free(list, last, id) {
        let steps = choose|steps: int|
            1 <= steps <= ID_COUNT && id == #[trigger] id_after(last, steps) && forall|k: int|
                1 <= k < steps ==> has_id(list, #[trigger] id_after(last, k) as EntryId);
        assert(steps == ids_between(last, id) + 1);
        assert forall|free: EntryId| !has_id(list, free) implies if (id > last) == (free > last) {
            id <= free
        } else {
            id > last
        } by {
            let k = ids_between(last, free) + 1;
            assert(id_after(last, k) == free);
            assert(k >= steps);
        }
    }
    if !has_id(list, id) && forall|free: EntryId| !has_id(list, free) ==> if (id > last) == (free
        > last) {
        id <= free
    } else {
        id > last
    } {
        let steps = ids_between(last, id) + 1;
        assert(id_after(last, steps) == id);
        assert forall|k: int| 1 <= k < steps implies has_id(
            list,
            #[trigger] id_after(last, k) as EntryId,
        ) by {
            let other = id_after(last, k) as EntryId;
            assert(ids_between(last, other) + 1 == k);
            if !has_id(list, other) {
                assert(if (id > last) == (other > last) {
                    id <= other
                } else {
                    id > last
                });
            }
        }
    }
}

/// A registration succeeds if and only if the timeline does not have as many entries as
/// it can. It then gives the next free id, adds that entry to its timeline, and changes
/// nothing else but the id that was issued last; else it changes nothing.
pub proof fn law_what_a_registration_is<T>(
    before: RegistryView<T>,
    after: RegistryView<T>,
    ttid: TenantTimelineId,
    data: T,
    entry: Option<Entry<T>>,
    other: TenantTimelineId,
)
    requires
        register_step(before, after, ttid, data, entry),
    ensures
        before.valid() && after.valid(),
        entry is Some <==> before.entries_of(ttid).len() < EntryId::MAX,
        entry is None ==> after == before,
        entry matches Some(entry) ==> {
            &&& is_next_free(before.entries_of(ttid), before.last_issued_id, entry.id)
            &&& *entry.data == data
            &&& after.last_issued_id == entry.id
            &&& after.entries_of(ttid) == before.entries_of(ttid).push((entry.id, data))
            &&& other != ttid ==> after.entries_of(other) == before.entries_of(other)
        },
{
    if other != ttid {
        assert(key_of(other) != key_of(ttid));
    }
}

/// Taking an entry out finds it if and only if it is there. It then leaves all other
/// entries of its timeline, in the same order, and changes nothing else; where it is not
/// there, nothing changes.
pub proof fn law_what_taking_out_is<T>(
    before: RegistryView<T>,
    after: RegistryView<T>,
    ttid: TenantTimelineId,
    id: EntryId,
    found: bool,
    other: TenantTimelineId,
    at: int,
)
    requires
        unregister_step(before, after, ttid, id, found),
    ensures
        before.valid() && after.valid(),
        found <==> has_id(before.entries_of(ttid), id),
        !found ==> after == before,
        after.last_issued_id == before.last_issued_id,
        !has_id(after.entries_of(ttid), id),
        other != ttid ==> after.entries_of(other) == before.entries_of(other),
        0 <= at < before.entries_of(ttid).len() && before.entries_of(ttid)[at].0 == id
            ==> after.entries_of(ttid) == before.entries_of(ttid).remove(at),
{
    if other != ttid {
        assert(key_of(other) != key_of(ttid));
    }
    let list = before.entries_of(ttid);
    if found {
        let i = choose|i: int| 0 <= i < list.len() && (#[trigger] list[i]).0 == id;
        law_unregister_takes_one_out(before, ttid, i);
        if 0 <= at < list.len() && list[at].0 == id {
            law_unregister_takes_one_out(before, ttid, at);
        }
    } else if 0 <= at < list.len() && list[at].0 == id {
        assert(has_id(list, id));
    }
}

/// What is said of a state is said of what it keeps: the id that was issued last, and
/// each list under its key, with the ids and the data of its entries.
proof fn law_what_a_state_keeps<T>(state: SharedState<T>, key: (u128, u128), i: int)
    ensures
        state@.last_issued_id == state.last_issued_id,
        state@.entries.contains_key(key) <==> state.entries@.contains_key(key),
        state.entries@.contains_key(key) ==> state@.entries[key].len()
            == state.entries@[key]@.len(),
        state.entries@.contains_key(key) && 0 <= i < state.entries@[key]@.len()
            ==> state@.entries[key][i] == (
            state.entries@[key]@[i].id,
            *state.entries@[key]@[i].data,
        ),
{
}

/// What is said of a registry is said of its lock, and what is said of a guard of its
/// parts.
proof fn law_what_a_registry_keeps<T>(registry: ConnectionRegistry<T>, guard: EntryGuard<T>)
    ensures
        guard.ttid() == guard.ttid && guard.id() == guard.id && guard.registry() == guard.registry
            && guard.data() == *guard.data,
        forall|start: RegistryView<T>| #[trigger]
            registry.starts_from(start) <==> exists|state: SharedState<T>|
                state@ == start && #[trigger] call_ensures(
                    lock_state::<T>,
                    (state,),
                    *registry.registry,
                ),
        forall|held: HeldState<T>| #[trigger]
            registry.gave_access(held) <==> call_ensures(
                hold_state::<T>,
                (&*registry.registry,),
                held,
            ),
        forall|held: &mut HeldState<T>, state: &mut SharedState<T>| #[trigger]
            is_state_of(held, state) <==> call_ensures(held_state::<T>, (held,), state),
        forall|held: HeldState<T>| #[trigger]
            is_given_up(held) <==> call_ensures(give_up::<T>, (held,), ()),
{
}

/// Where a registration is the last thing that is done with the access to a registry,
/// the entry of its guard is in the list of its timeline in the state that is left, last
/// and once, and taking it out of that state finds it.
pub proof fn law_registration_leaves_its_entry<T>(
    before: RegistryView<T>,
    left: RegistryView<T>,
    after: RegistryView<T>,
    ttid: TenantTimelineId,
    data: T,
    entry: Entry<T>,
    found: bool,
)
    requires
        register_step(before, left, ttid, data, Some(entry)),
        unregister_step(left, after, ttid, entry.id, found),
    ensures
        left.entries_of(ttid).len() == before.entries_of(ttid).len() + 1,
        left.entries_of(ttid).last() == (entry.id, data),
        unique_ids(left.entries_of(ttid)),
        found,
        after.entries_of(ttid) == before.entries_of(ttid),
{
    law_registered_entry_is_there(before, left, ttid, data, entry);
    let list = left.entries_of(ttid);
    let at: int = list.len() - 1;
    law_what_taking_out_is(left, after, ttid, entry.id, found, ttid, at);
    assert(list.remove(at) =~= before.entries_of(ttid));
}

} // verus!
