//! Collections kept in ascending key order.

use vstd::prelude::*;

verus! {

/// Keys that a position on a line identifies.
pub trait Ranked: Copy {
    /// The key's position.
    spec fn rank(self) -> int;

    /// Two keys at one position are the same key.
    proof fn rank_identifies(a: Self, b: Self)
        requires
            a.rank() == b.rank(),
        ensures
            a == b,
    ;

    /// Whether this key stands before `other`.
    fn precedes(self, other: Self) -> (before: bool)
        ensures
            before == (self.rank() < other.rank()),
    ;
}

impl Ranked for u32 {
    open spec fn rank(self) -> int {
        self as int
    }

    proof fn rank_identifies(a: Self, b: Self) {
    }

    fn precedes(self, other: Self) -> (before: bool) {
        self < other
    }
}

/// Whether keys stand in strictly ascending order.
pub open spec fn ascending<K: Ranked>(keys: Seq<K>) -> bool {
    forall|i: int, j: int|
        #![trigger keys[i], keys[j]]
        0 <= i < j < keys.len() ==> keys[i].rank() < keys[j].rank()
}

/// An ascending sequence holds no key twice.
pub proof fn lemma_ascending_distinct<K: Ranked>(keys: Seq<K>, i: int, j: int)
    requires
        ascending(keys),
        0 <= i < keys.len(),
        0 <= j < keys.len(),
        keys[i] == keys[j],
    ensures
        i == j,
{
    if i < j {
        assert(keys[i].rank() < keys[j].rank());
    } else if j < i {
        assert(keys[j].rank() < keys[i].rank());
    }
}

/// Two ascending sequences of the same keys are the same sequence.
pub proof fn ascending_sequences_agree<K: Ranked>(a: Seq<K>, b: Seq<K>)
    requires
        ascending(a),
        ascending(b),
        forall|key: K| #[trigger] a.contains(key) <==> b.contains(key),
    ensures
        a == b,
    decreases a.len() + b.len(),
{
    if a.len() == 0 {
        if b.len() > 0 {
            assert(b.contains(b[0]));
            assert(a.contains(b[0]));
        }
        assert(a =~= b);
    } else if b.len() == 0 {
        assert(a.contains(a[0]));
        assert(b.contains(a[0]));
    } else {
        let x = a.last();
        let y = b.last();
        assert(a[a.len() - 1] == x);
        assert(b[b.len() - 1] == y);
        assert(a.contains(x));
        assert(b.contains(y));
        assert(b.contains(x));
        assert(a.contains(y));
        let p = b.index_of(x);
        let q = a.index_of(y);
        if p < b.len() - 1 {
            assert(b[p].rank() < b[b.len() - 1].rank());
        }
        if q < a.len() - 1 {
            assert(a[q].rank() < a[a.len() - 1].rank());
        }
        assert(x == y);
        let a1 = a.drop_last();
        let b1 = b.drop_last();
        assert forall|key: K| #[trigger] a1.contains(key) <==> b1.contains(key) by {
            if a1.contains(key) {
                let i = a1.index_of(key);
                assert(a[i] == key);
                assert(a.contains(key));
                assert(a[i].rank() < a[a.len() - 1].rank());
                let j = b.index_of(key);
                assert(b[j] == key);
                assert(j < b.len() - 1);
                assert(b1[j] == key);
            }
            if b1.contains(key) {
                let i = b1.index_of(key);
                assert(b[i] == key);
                assert(b.contains(key));
                assert(b[i].rank() < b[b.len() - 1].rank());
                assert(a.contains(key) <==> b.contains(key));
                let j = a.index_of(key);
                assert(a[j] == key);
                assert(j < a.len() - 1);
                assert(a1[j] == key);
            }
        }
        ascending_sequences_agree(a1, b1);
        assert(a =~= a1.push(x));
        assert(b =~= b1.push(y));
    }
}

/// Looking at one more element finds that element besides those found before.
pub proof fn lemma_take_next<T>(items: Seq<T>, i: int)
    requires
        0 <= i < items.len(),
    ensures
        forall|item: T| #[trigger]
            items.take(i + 1).contains(item) <==> items.take(i).contains(item) || item == items[i],
{
    let shorter = items.take(i);
    let longer = items.take(i + 1);
    assert forall|item: T| #[trigger] longer.contains(item) <==> shorter.contains(item) || item
        == items[i] by {
        if longer.contains(item) {
            let k = longer.index_of(item);
            if k < i {
                assert(shorter[k] == item);
            }
        }
        if shorter.contains(item) {
            let k = shorter.index_of(item);
            assert(longer[k] == item);
        }
        assert(longer[i] == items[i]);
    }
}

/// Where `key` stands, or would stand, in an ascending sequence.
fn position_of<K: Ranked>(keys: &Vec<K>, key: K) -> (at: usize)
    requires
        ascending(keys@),
    ensures
        at <= keys@.len(),
        forall|i: int| #![trigger keys@[i]] 0 <= i < at ==> keys@[i].rank() < key.rank(),
        forall|i: int| #![trigger keys@[i]] at <= i < keys@.len() ==> keys@[i].rank() >= key.rank(),
{
    let mut low: usize = 0;
    let mut high: usize = keys.len();
    while low < high
        invariant
            ascending(keys@),
            low <= high <= keys@.len(),
            forall|i: int| #![trigger keys@[i]] 0 <= i < low ==> keys@[i].rank() < key.rank(),
            forall|i: int|
                #![trigger keys@[i]]
                high <= i < keys@.len() ==> keys@[i].rank() >= key.rank(),
        decreases high - low,
    {
        let middle: usize = low + (high - low) / 2;
        if keys[middle].precedes(key) {
            low = middle + 1;
        } else {
            high = middle;
        }
    }
    low
}

/// A set of keys, listed in ascending order.
#[derive(Debug, PartialEq, Eq)]
pub struct OrderedSet<K: Ranked> {
    items: Vec<K>,
}

impl<K: Ranked> View for OrderedSet<K> {
    type V = Seq<K>;

    /// The members in ascending order.
    closed spec fn view(&self) -> Seq<K> {
        self.items@
    }
}

impl<K: Ranked> OrderedSet<K> {
    /// Members stand in strictly ascending order.
    pub open spec fn wf(&self) -> bool {
        ascending(self@)
    }

    /// Whether `key` is a member.
    pub open spec fn holds(&self, key: K) -> bool {
        self@.contains(key)
    }

    /// The empty set.
    pub fn new() -> (set: Self)
        ensures
            set.wf(),
            set@ == Seq::<K>::empty(),
    {
        OrderedSet { items: Vec::new() }
    }

    /// Number of members.
    pub fn len(&self) -> (count: usize)
        ensures
            count == self@.len(),
    {
        self.items.len()
    }

    /// Whether there is no member.
    pub fn is_empty(&self) -> (empty: bool)
        ensures
            empty == (self@.len() == 0),
    {
        self.items.len() == 0
    }

    /// The member at position `at`.
    pub fn item(&self, at: usize) -> (key: K)
        requires
            at < self@.len(),
        ensures
            key == self@[at as int],
    {
        self.items[at]
    }

    /// Whether `key` is a member.
    pub fn contains(&self, key: K) -> (held: bool)
        requires
            self.wf(),
        ensures
            held == self.holds(key),
    {
        let at: usize = position_of(&self.items, key);
        if at < self.items.len() && !key.precedes(self.items[at]) {
            proof {
                K::rank_identifies(key, self.items@[at as int]);
                assert(self@[at as int] == key);
            }
            true
        } else {
            proof {
                if self@.contains(key) {
                    let i = self@.index_of(key);
                    assert(self@[i] == key);
                }
            }
            false
        }
    }

    /// Adds `key`; says whether it was new.
    pub fn insert(&mut self, key: K) -> (fresh: bool)
        requires
            old(self).wf(),
        ensures
            final(self).wf(),
            fresh == !old(self).holds(key),
            forall|other: K|
                #[trigger] final(self).holds(other) <==> old(self).holds(other) || other == key,
            !fresh ==> final(self)@ == old(self)@,
            fresh ==> final(self)@.len() == old(self)@.len() + 1,
    {
        let ghost before = self.items@;
        let at: usize = position_of(&self.items, key);
        if at < self.items.len() && !key.precedes(self.items[at]) {
            proof {
                K::rank_identifies(key, self.items@[at as int]);
                assert(self@[at as int] == key);
            }
            return false;
        }
        proof {
            if before.contains(key) {
                let i = before.index_of(key);
                assert(before[i] == key);
            }
        }
        self.items.insert(at, key);
        proof {
            let after = self.items@;
            assert(after == before.insert(at as int, key));
            assert forall|i: int, j: int| #![trigger after[i], after[j]]
                0 <= i < j < after.len() implies after[i].rank() < after[j].rank() by {
                if i < at {
                    assert(after[i] == before[i]);
                } else if i > at {
                    assert(after[i] == before[i - 1]);
                }
                if j < at {
                    assert(after[j] == before[j]);
                } else if j > at {
                    assert(after[j] == before[j - 1]);
                }
            }
            assert forall|other: K| #[trigger] after.contains(other) <==> before.contains(other)
                || other == key by {
                if after.contains(other) {
                    let i = after.index_of(other);
                    if i < at {
                        assert(before[i] == other);
                    } else if i > at {
                        assert(before[i - 1] == other);
                    }
                }
                if before.contains(other) {
                    let i = before.index_of(other);
                    if i < at {
                        assert(after[i] == other);
                    } else {
                        assert(after[i + 1] == other);
                    }
                }
                assert(after[at as int] == key);
            }
            assert forall|other: K| #[trigger] self.holds(other) <==> old(self).holds(other)
                || other == key by {
                assert(after.contains(other) <==> before.contains(other) || other == key);
            }
        }
        true
    }

    /// The members in ascending order.
    pub fn to_vec(&self) -> (items: Vec<K>)
        ensures
            items@ == self@,
    {
        let mut items: Vec<K> = Vec::new();
        let mut i: usize = 0;
        while i < self.items.len()
            invariant
                i <= self.items@.len(),
                items@ =~= self.items@.take(i as int),
            decreases self.items@.len() - i,
        {
            items.push(self.items[i]);
            i += 1;
        }
        items
    }
}

/// Values by key, in ascending key order.
#[derive(Debug, PartialEq, Eq)]
pub struct OrderedMap<K: Ranked, V> {
    /// Keys in strictly ascending order.
    pub keys: Vec<K>,
    /// The value of each key.
    pub values: Vec<V>,
}

impl<K: Ranked, V> View for OrderedMap<K, V> {
    type V = Map<K, V>;

    /// The value of each key.
    open spec fn view(&self) -> Map<K, V> {
        Map::new(
            |key: K| self.keys@.contains(key),
            |key: K| self.values@[self.keys@.index_of(key)],
        )
    }
}

impl<K: Ranked, V> OrderedMap<K, V> {
    /// Keys ascend and each has a value.
    pub open spec fn wf(&self) -> bool {
        &&& ascending(self.keys@)
        &&& self.keys@.len() == self.values@.len()
    }

    /// Whether `key` has a value.
    pub open spec fn holds(&self, key: K) -> bool {
        self.keys@.contains(key)
    }

    /// A key stands at one position.
    pub proof fn lemma_index(&self, at: int)
        requires
            self.wf(),
            0 <= at < self.keys@.len(),
        ensures
            self.keys@.contains(self.keys@[at]),
            self.keys@.index_of(self.keys@[at]) == at,
            self@.dom().contains(self.keys@[at]),
            self@[self.keys@[at]] == self.values@[at],
    {
        let i = self.keys@.index_of(self.keys@[at]);
        lemma_ascending_distinct(self.keys@, i, at);
    }

    /// A map without keys.
    pub fn new() -> (map: Self)
        ensures
            map.wf(),
            map.keys@ == Seq::<K>::empty(),
            map.values@ == Seq::<V>::empty(),
            map@ == Map::<K, V>::empty(),
    {
        let map = OrderedMap { keys: Vec::new(), values: Vec::new() };
        assert(map@ =~= Map::<K, V>::empty());
        map
    }

    /// Number of keys.
    pub fn len(&self) -> (count: usize)
        ensures
            count == self.keys@.len(),
    {
        self.keys.len()
    }

    /// Where `key` stands.
    pub fn index_of(&self, key: K) -> (at: Option<usize>)
        requires
            self.wf(),
        ensures
            at is Some <==> self.keys@.contains(key),
            at is Some ==> at->0 < self.keys@.len() && self.keys@[at->0 as int] == key && at->0
                == self.keys@.index_of(key),
    {
        let at: usize = position_of(&self.keys, key);
        if at < self.keys.len() && !key.precedes(self.keys[at]) {
            proof {
                K::rank_identifies(key, self.keys@[at as int]);
                self.lemma_index(at as int);
            }
            Some(at)
        } else {
            proof {
                if self.keys@.contains(key) {
                    let i = self.keys@.index_of(key);
                    assert(self.keys@[i] == key);
                }
            }
            None
        }
    }

    /// Whether `key` has a value.
    pub fn contains_key(&self, key: K) -> (held: bool)
        requires
            self.wf(),
        ensures
            held == self@.dom().contains(key),
            held == self.holds(key),
    {
        self.index_of(key).is_some()
    }

    /// The value of `key`.
    pub fn get(&self, key: K) -> (value: Option<&V>)
        requires
            self.wf(),
        ensures
            value is Some <==> self@.dom().contains(key),
            value is Some ==> *value->0 == self@[key],
    {
        match self.index_of(key) {
            Some(at) => Some(&self.values[at]),
            None => None,
        }
    }

    /// Gives `key` the value `value`.
    pub fn insert(&mut self, key: K, value: V)
        requires
            old(self).wf(),
        ensures
            final(self).wf(),
            final(self)@ == old(self)@.insert(key, value),
            !old(self).holds(key) && old(self).keys@.len() > 0 && old(self).keys@.last().rank()
                < key.rank() ==> final(self).keys@ == old(self).keys@.push(key) && final(
                self).values@ == old(self).values@.push(value),
            old(self).keys@.len() == 0 ==> final(self).keys@ == seq![key] && final(self).values@
                == seq![value],
            old(self).holds(key) ==> final(self).keys@ == old(self).keys@,
            forall|other: K| #[trigger]
                final(self).keys@.contains(other) <==> old(self).keys@.contains(other) || other
                    == key,
    {
        let ghost keys = self.keys@;
        let ghost values = self.values@;
        let ghost before = self@;
        let at: usize = position_of(&self.keys, key);
        if at < self.keys.len() && !key.precedes(self.keys[at]) {
            proof {
                K::rank_identifies(key, self.keys@[at as int]);
                self.lemma_index(at as int);
            }
            self.values.set(at, value);
            proof {
                assert(self.keys@ == keys);
                assert forall|other: K| #[trigger] before.insert(key, value).dom().contains(other) implies self@[other]
                    == before.insert(key, value)[other] by {
                    if other != key {
                        let i = keys.index_of(other);
                        assert(keys[i] == other);
                        assert(i != at);
                    }
                }
                assert(self@ =~= before.insert(key, value));
            }
            return;
        }
        proof {
            if keys.contains(key) {
                let i = keys.index_of(key);
                assert(keys[i] == key);
            }
        }
        self.keys.insert(at, key);
        self.values.insert(at, value);
        proof {
            let after = self.keys@;
            assert(after == keys.insert(at as int, key));
            assert(self.values@ == values.insert(at as int, value));
            assert forall|i: int, j: int| #![trigger after[i], after[j]]
                0 <= i < j < after.len() implies after[i].rank() < after[j].rank() by {
                if i < at {
                    assert(after[i] == keys[i]);
                } else if i > at {
                    assert(after[i] == keys[i - 1]);
                }
                if j < at {
                    assert(after[j] == keys[j]);
                } else if j > at {
                    assert(after[j] == keys[j - 1]);
                }
            }
            assert(self.wf());
            assert(after[at as int] == key);
            self.lemma_index(at as int);
            assert forall|other: K| #[trigger] after.contains(other) <==> keys.contains(other) || other
                == key by {
                if after.contains(other) {
                    let i = after.index_of(other);
                    if i < at {
                        assert(keys[i] == other);
                    } else if i > at {
                        assert(keys[i - 1] == other);
                    }
                }
                if keys.contains(other) {
                    let i = keys.index_of(other);
                    if i < at {
                        assert(after[i] == other);
                    } else {
                        assert(after[i + 1] == other);
                    }
                }
            }
            assert forall|other: K| #[trigger] before.insert(key, value).dom().contains(other) implies self@[other]
                == before.insert(key, value)[other] by {
                if other != key {
                    let i = keys.index_of(other);
                    assert(keys[i] == other);
                    if i < at {
                        assert(after[i] == other);
                        self.lemma_index(i);
                    } else {
                        assert(after[i + 1] == other);
                        self.lemma_index(i + 1);
                    }
                }
            }
            assert(self@ =~= before.insert(key, value)) by {
                assert forall|other: K| #[trigger] self@.dom().contains(other) <==> before.insert(
                    key,
                    value,
                ).dom().contains(other) by {
                    assert(after.contains(other) <==> keys.contains(other) || other == key);
                }
            }
            if keys.len() > 0 && keys.last().rank() < key.rank() {
                assert(keys[keys.len() - 1].rank() < key.rank());
                assert(at == keys.len());
                assert(after =~= keys.push(key));
                assert(self.values@ =~= values.push(value));
            }
            if keys.len() == 0 {
                assert(after =~= seq![key]);
                assert(self.values@ =~= seq![value]);
            }
        }
    }

    /// Takes `key` out; says whether it had a value.
    pub fn remove(&mut self, key: K) -> (held: bool)
        requires
            old(self).wf(),
        ensures
            final(self).wf(),
            held == old(self)@.dom().contains(key),
            final(self)@ == old(self)@.remove(key),
            forall|other: K| #[trigger]
                final(self).keys@.contains(other) <==> old(self).keys@.contains(other) && other
                    != key,
    {
        let ghost keys = self.keys@;
        let ghost before = self@;
        match self.index_of(key) {
            None => {
                assert(self@ =~= before.remove(key));
                false
            },
            Some(at) => {
                self.keys.remove(at);
                self.values.remove(at);
                proof {
                    let after = self.keys@;
                    assert(after == keys.remove(at as int));
                    assert forall|i: int, j: int| #![trigger after[i], after[j]]
                        0 <= i < j < after.len() implies after[i].rank() < after[j].rank() by {
                        let p = if i < at { i } else { i + 1 };
                        let q = if j < at { j } else { j + 1 };
                        assert(after[i] == keys[p]);
                        assert(after[j] == keys[q]);
                    }
                    assert(self.wf());
                    assert forall|other: K| #[trigger] after.contains(other) <==> keys.contains(other)
                        && other != key by {
                        if after.contains(other) {
                            let i = after.index_of(other);
                            let p = if i < at { i } else { i + 1 };
                            assert(keys[p] == other);
                            if other == key {
                                lemma_ascending_distinct(keys, p, at as int);
                            }
                        }
                        if keys.contains(other) && other != key {
                            let i = keys.index_of(other);
                            let p = if i < at { i } else { i - 1 };
                            assert(after[p] == other);
                        }
                    }
                    assert forall|other: K| #[trigger] before.remove(key).dom().contains(other) implies self@[other]
                        == before.remove(key)[other] by {
                        let i = keys.index_of(other);
                        assert(keys[i] == other);
                        let p = if i < at { i } else { i - 1 };
                        assert(after[p] == other);
                        self.lemma_index(p);
                    }
                    assert(self@ =~= before.remove(key)) by {
                        assert forall|other: K| #[trigger] self@.dom().contains(other)
                            <==> before.remove(key).dom().contains(other) by {
                            assert(after.contains(other) <==> keys.contains(other) && other != key);
                        }
                    }
                }
                true
            },
        }
    }
}

} // verus!
