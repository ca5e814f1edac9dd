//! A map that keeps its entries in the order of their keys.
use vstd::prelude::*;

verus! {

/// A key whose order is that of a number.
pub trait MapKey: Copy {
    /// The number by which keys are ordered.
    spec fn rank(self) -> int;

    /// Different keys have different ranks.
    proof fn rank_tells_apart(a: Self, b: Self)
        requires
            a.rank() == b.rank(),
        ensures
            a == b,
    ;

    /// Whether this key comes before `other`.
    fn precedes(self, other: Self) -> (before: bool)
        ensures
            before == (self.rank() < other.rank()),
    ;
}

/// Whether the keys of the entries go up, so that no key occurs twice.
pub open spec fn ordered<K: MapKey, V>(entries: Seq<(K, V)>) -> bool {
    forall|i: int, j: int|
        0 <= i < j < entries.len() ==> (#[trigger] entries[i]).0.rank() < (
        #[trigger] entries[j]).0.rank()
}

/// How many entries at the front have a rank below `rank`.
pub open spec fn count_below<K: MapKey, V>(entries: Seq<(K, V)>, rank: int) -> nat
    decreases entries.len(),
{
    if entries.len() > 0 && entries[0].0.rank() < rank {
        1 + count_below(entries.drop_first(), rank)
    } else {
        0
    }
}

/// The entries with `value` under `key`, in place of what was there before.
pub open spec fn inserted<K: MapKey, V>(entries: Seq<(K, V)>, key: K, value: V) -> Seq<(K, V)> {
    let at = count_below(entries, key.rank()) as int;
    let rest = if at < entries.len() && entries[at].0 == key {
        entries.skip(at + 1)
    } else {
        entries.skip(at)
    };
    entries.take(at).push((key, value)) + rest
}

/// The entries of a map to which those of `list` were added one after the other.
pub open spec fn collected<K: MapKey, V>(list: Seq<(K, V)>) -> Seq<(K, V)>
    decreases list.len(),
{
    if list.len() == 0 {
        Seq::empty()
    } else {
        inserted(collected(list.drop_last()), list.last().0, list.last().1)
    }
}

/// The count of entries below a rank is where the ranks first reach it.
pub proof fn lemma_count_below<K: MapKey, V>(entries: Seq<(K, V)>, rank: int, at: int)
    requires
        0 <= at <= entries.len(),
        forall|i: int| 0 <= i < at ==> (#[trigger] entries[i]).0.rank() < rank,
        at < entries.len() ==> entries[at].0.rank() >= rank,
    ensures
        count_below(entries, rank) == at,
    decreases entries.len(),
{
    if at > 0 {
        let rest = entries.drop_first();
        assert forall|i: int| 0 <= i < at - 1 implies (#[trigger] rest[i]).0.rank() < rank by {
            assert(rest[i] == entries[i + 1]);
        }
        lemma_count_below(rest, rank, at - 1);
    }
}

/// What the count of entries below a rank says of the entries.
pub proof fn lemma_counted<K: MapKey, V>(entries: Seq<(K, V)>, rank: int)
    ensures
        count_below(entries, rank) <= entries.len(),
        forall|i: int|
            0 <= i < count_below(entries, rank) ==> (#[trigger] entries[i]).0.rank() < rank,
        count_below(entries, rank) < entries.len() ==> entries[count_below(
            entries,
            rank,
        ) as int].0.rank() >= rank,
    decreases entries.len(),
{
    if entries.len() > 0 && entries[0].0.rank() < rank {
        let rest = entries.drop_first();
        lemma_counted(rest, rank);
        assert forall|i: int| 0 <= i < count_below(entries, rank) implies (
        #[trigger] entries[i]).0.rank() < rank by {
            if i > 0 {
                assert(rest[i - 1] == entries[i]);
            }
        }
    }
}

/// The entry that was put in is there, and the order is kept.
pub proof fn lemma_inserted_ordered<K: MapKey, V>(entries: Seq<(K, V)>, key: K, value: V)
    requires
        ordered(entries),
    ensures
        ordered(inserted(entries, key, value)),
        inserted(entries, key, value).contains((key, value)),
{
    lemma_counted(entries, key.rank());
    let at = count_below(entries, key.rank()) as int;
    let after = inserted(entries, key, value);
    assert(after[at] == (key, value));
    let skipped: int = if at < entries.len() && entries[at].0 == key { 0 } else { 1 };
    assert forall|i: int, j: int| 0 <= i < j < after.len() implies (
    #[trigger] after[i]).0.rank() < (#[trigger] after[j]).0.rank() by {
        if j > at {
            let k = j - skipped;
            assert(after[j] == entries[k]);
            if at < k {
                assert(entries[at].0.rank() < entries[k].0.rank());
            } else {
                assert(k == at);
                if entries[at].0.rank() == key.rank() {
                    K::rank_tells_apart(entries[at].0, key);
                }
            }
        }
    }
}

/// Putting an entry in makes it the only one under its key, and leaves every
/// other entry as it was.
pub proof fn law_insert_replaces<K: MapKey, V>(entries: Seq<(K, V)>, key: K, value: V)
    requires
        ordered(entries),
    ensures
        ordered(inserted(entries, key, value)),
        forall|k: K, v: V| #[trigger]
            inserted(entries, key, value).contains((k, v)) <==> if k == key {
                v == value
            } else {
                entries.contains((k, v))
            },
{
    lemma_inserted_ordered(entries, key, value);
    lemma_counted(entries, key.rank());
    let at = count_below(entries, key.rank()) as int;
    let after = inserted(entries, key, value);
    let skipped: int = if at < entries.len() && entries[at].0 == key { 0 } else { 1 };
    assert(after[at] == (key, value));
    assert forall|k: K, v: V| #[trigger] after.contains((k, v)) implies if k == key {
        v == value
    } else {
        entries.contains((k, v))
    } by {
        let i = choose|i: int| 0 <= i < after.len() && after[i] == (k, v);
        if i < at {
            assert(entries[i] == (k, v));
        } else if i > at {
            assert(after[at].0.rank() < after[i].0.rank());
            assert(entries[i - skipped] == (k, v));
        }
    }
    assert forall|k: K, v: V|
        (if k == key {
            v == value
        } else {
            entries.contains((k, v))
        }) implies #[trigger] after.contains((k, v)) by {
        if k != key {
            let i = choose|i: int| 0 <= i < entries.len() && entries[i] == (k, v);
            if i < at {
                assert(after[i] == (k, v));
            } else {
                assert(after[i + skipped] == (k, v));
            }
        }
    }
}

/// An entry above all others goes to the end.
pub proof fn lemma_inserted_last<K: MapKey, V>(entries: Seq<(K, V)>, key: K, value: V)
    requires
        forall|i: int| 0 <= i < entries.len() ==> (#[trigger] entries[i]).0.rank() < key.rank(),
    ensures
        inserted(entries, key, value) == entries.push((key, value)),
{
    lemma_count_below(entries, key.rank(), entries.len() as int);
    assert(inserted(entries, key, value) =~= entries.push((key, value)));
}

/// What is collected is in order.
pub proof fn lemma_collected_valid<K: MapKey, V>(list: Seq<(K, V)>)
    ensures
        ordered(collected(list)),
    decreases list.len(),
{
    if list.len() > 0 {
        lemma_collected_valid(list.drop_last());
        lemma_inserted_ordered(collected(list.drop_last()), list.last().0, list.last().1);
    }
}

/// A list that is in order already is collected as it stands.
pub proof fn lemma_collected_ordered<K: MapKey, V>(list: Seq<(K, V)>)
    requires
        ordered(list),
    ensures
        collected(list) == list,
    decreases list.len(),
{
    if list.len() > 0 {
        let before = list.drop_last();
        assert forall|i: int, j: int| 0 <= i < j < before.len() implies (
        #[trigger] before[i]).0.rank() < (#[trigger] before[j]).0.rank() by {
            assert(list[i].0.rank() < list[j].0.rank());
        }
        lemma_collected_ordered(before);
        assert forall|i: int| 0 <= i < before.len() implies (#[trigger] before[i]).0.rank()
            < list.last().0.rank() by {
            assert(list[i].0.rank() < list[list.len() - 1].0.rank());
        }
        lemma_inserted_last(before, list.last().0, list.last().1);
        assert(before.push(list.last()) =~= list);
    } else {
        assert(list =~= Seq::empty());
    }
}

/// A map whose entries stand in the order of their keys.
pub struct OrderedMap<K: MapKey, V> {
    entries: Vec<(K, V)>,
}

impl<K: MapKey, V> View for OrderedMap<K, V> {
    type V = Seq<(K, V)>;

    /// The entries in the order of their keys.
    closed spec fn view(&self) -> Seq<(K, V)> {
        self.entries@
    }
}

impl<K: MapKey, V> OrderedMap<K, V> {
    #[verifier::type_invariant]
    spec fn keys_go_up(self) -> bool {
        ordered(self.entries@)
    }

    /// A map without entries.
    pub fn new() -> (map: Self)
        ensures
            map@ == Seq::<(K, V)>::empty(),
    {
        OrderedMap { entries: Vec::new() }
    }

    /// The number of entries.
    pub fn len(&self) -> (n: usize)
        ensures
            n == self@.len(),
            ordered(self@),
    {
        proof {
            use_type_invariant(self);
        }
        self.entries.len()
    }

    /// The key of the entry at `i`.
    pub fn key_at(&self, i: usize) -> (key: K)
        requires
            i < self@.len(),
        ensures
            key == self@[i as int].0,
    {
        self.entries[i].0
    }

    /// The value of the entry at `i`.
    pub fn value_at(&self, i: usize) -> (value: &V)
        requires
            i < self@.len(),
        ensures
            *value == self@[i as int].1,
    {
        &self.entries[i].1
    }

    /// The number of entries whose key comes before `key`, or is `key` where
    /// `inclusive` holds.
    pub fn count_up_to(&self, key: K, inclusive: bool) -> (n: usize)
        ensures
            n == count_below(self@, if inclusive { key.rank() + 1 } else { key.rank() }),
            n <= self@.len(),
            ordered(self@),
    {
        proof {
            use_type_invariant(self);
        }
        let ghost rank: int = if inclusive { key.rank() + 1 } else { key.rank() };
        let mut low: usize = 0;
        let mut high: usize = self.entries.len();
        while low < high
            invariant
                low <= high <= self.entries@.len(),
                ordered(self.entries@),
                rank == if inclusive { key.rank() + 1 } else { key.rank() },
                forall|i: int| 0 <= i < low ==> (#[trigger] self.entries@[i]).0.rank() < rank,
                forall|i: int|
                    high <= i < self.entries@.len() ==> (#[trigger] self.entries@[i]).0.rank()
                        >= rank,
            decreases high - low,
        {
            let mid: usize = low + (high - low) / 2;
            let at: K = self.entries[mid].0;
            let below: bool = if inclusive { !key.precedes(at) } else { at.precedes(key) };
            if below {
                assert forall|i: int| 0 <= i < mid + 1 implies (
                #[trigger] self.entries@[i]).0.rank() < rank by {
                    if i < mid {
                        assert(self.entries@[i].0.rank() < self.entries@[mid as int].0.rank());
                    }
                }
                low = mid + 1;
            } else {
                assert forall|i: int| mid <= i < self.entries@.len() implies (
                #[trigger] self.entries@[i]).0.rank() >= rank by {
                    if i > mid {
                        assert(self.entries@[mid as int].0.rank() < self.entries@[i].0.rank());
                    }
                }
                high = mid;
            }
        }
        proof {
            lemma_count_below(self.entries@, rank, low as int);
        }
        low
    }

    /// Puts `value` under `key`, in place of what was there before.
    pub fn insert(&mut self, key: K, value: V)
        ensures
            final(self)@ == inserted(old(self)@, key, value),
    {
        let at: usize = self.count_up_to(key, false);
        let mut entries: Vec<(K, V)> = Vec::new();
        std::mem::swap(&mut entries, &mut self.entries);
        let ghost before = entries@;
        proof {
            lemma_counted(before, key.rank());
            lemma_inserted_ordered(before, key, value);
        }
        if at < entries.len() && !key.precedes(entries[at].0) {
            proof {
                K::rank_tells_apart(before[at as int].0, key);
            }
            entries.set(at, (key, value));
        } else {
            entries.insert(at, (key, value));
        }
        assert(entries@ =~= inserted(before, key, value));
        self.entries = entries;
    }
}

/// Entries are in order if and only if each key comes before every later one.
pub proof fn law_order_of_entries<K: MapKey, V>(entries: Seq<(K, V)>)
    ensures
        ordered(entries) <==> forall|i: int, j: int|
            0 <= i < j < entries.len() ==> (#[trigger] entries[i]).0.rank() < (
            #[trigger] entries[j]).0.rank(),
{
}

/// Of entries that are added one after the other, the last one under each key is
/// there, and nothing else; and they are in order.
pub proof fn law_collected_entries<K: MapKey, V>(list: Seq<(K, V)>, key: K, value: V)
    ensures
        ordered(collected(list)),
        collected(list).contains((key, value)) <==> exists|i: int|
            {
                &&& 0 <= i < list.len()
                &&& #[trigger] list[i] == (key, value)
                &&& forall|j: int| i < j < list.len() ==> (#[trigger] list[j]).0 != key
            },
    decreases list.len(),
{
    lemma_collected_valid(list);
    if list.len() > 0 {
        let before = list.drop_last();
        let last: int = list.len() - 1;
        law_collected_entries(before, key, value);
        lemma_collected_valid(before);
        law_insert_replaces(collected(before), list.last().0, list.last().1);
        let after = collected(list);
        assert(after.contains((key, value)) <==> if key == list[last].0 {
            value == list[last].1
        } else {
            collected(before).contains((key, value))
        });
        if key == list[last].0 {
            if value == list[last].1 {
                assert(list[last] == (key, value));
            }
        } else {
            if collected(before).contains((key, value)) {
                let i = choose|i: int|
                    {
                        &&& 0 <= i < before.len()
                        &&& #[trigger] before[i] == (key, value)
                        &&& forall|j: int| i < j < before.len() ==> (#[trigger] before[j]).0 != key
                    };
                assert(list[i] == (key, value));
                assert forall|j: int| i < j < list.len() implies (#[trigger] list[j]).0 != key by {
                    if j < last {
                        assert(before[j] == list[j]);
                    }
                }
            }
            if exists|i: int|
                {
                    &&& 0 <= i < list.len()
                    &&& #[trigger] list[i] == (key, value)
                    &&& forall|j: int| i < j < list.len() ==> (#[trigger] list[j]).0 != key
                } {
                let i = choose|i: int|
                    {
                        &&& 0 <= i < list.len()
                        &&& #[trigger] list[i] == (key, value)
                        &&& forall|j: int| i < j < list.len() ==> (#[trigger] list[j]).0 != key
                    };
                assert(before[i] == (key, value));
                assert forall|j: int| i < j < before.len() implies (
                #[trigger] before[j]).0 != key by {
                    assert(before[j] == list[j]);
                }
            }
        }
    }
}

/// What is said of a map is said of the entries that it keeps.
proof fn law_what_a_map_keeps<K: MapKey, V>(map: OrderedMap<K, V>)
    ensures
        map@ == map.entries@,
{
}

} // verus!
