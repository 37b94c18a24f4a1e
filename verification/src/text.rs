//! Text keys: their order, and a map sorted by it.
use vstd::prelude::*;
use vstd::utf8::encode_utf8;

verus! {

/// Where one text stands relative to another.
#[derive(Clone, Copy, Debug, PartialEq, Eq, Structural)]
pub enum Position {
    Before,
    Same,
    After,
}

/// `a` and `b` agree on their first `k` bytes, and the next byte of `b`
/// (which exists) puts `b` after `a`.
pub open spec fn bytes_split_at(a: Seq<u8>, b: Seq<u8>, k: int) -> bool {
    &&& 0 <= k <= a.len()
    &&& k < b.len()
    &&& forall|i: int| 0 <= i < k ==> a[i] == b[i]
    &&& k == a.len() || a[k] < b[k]
}

/// Lexicographic order of byte strings.
pub open spec fn bytes_before(a: Seq<u8>, b: Seq<u8>) -> bool {
    exists|k: int| bytes_split_at(a, b, k)
}

/// The order of texts: the lexicographic order of their UTF-8 encodings.
pub open spec fn text_before(a: Seq<char>, b: Seq<char>) -> bool {
    bytes_before(encode_utf8(a), encode_utf8(b))
}

/// No text stands before itself.
pub proof fn text_before_irreflexive(a: Seq<char>)
    ensures
        !text_before(a, a),
{
}

/// The order of texts is transitive.
pub proof fn text_before_transitive(a: Seq<char>, b: Seq<char>, c: Seq<char>)
    requires
        text_before(a, b),
        text_before(b, c),
    ensures
        text_before(a, c),
{
    let x = encode_utf8(a);
    let y = encode_utf8(b);
    let z = encode_utf8(c);
    let j = choose|k: int| bytes_split_at(x, y, k);
    let k = choose|k: int| bytes_split_at(y, z, k);
    if j <= k {
        assert(bytes_split_at(x, z, j));
    } else {
        assert(bytes_split_at(x, z, k));
    }
}

/// Different texts have different encodings.
pub proof fn encoding_is_injective(a: Seq<char>, b: Seq<char>)
    requires
        encode_utf8(a) == encode_utf8(b),
    ensures
        a == b,
{
    vstd::utf8::encode_utf8_decode_utf8(a);
    vstd::utf8::encode_utf8_decode_utf8(b);
}

/// Tells where `a` stands relative to `b`.
pub fn compare_text(a: &str, b: &str) -> (position: Position)
    ensures
        position == Position::Before <==> text_before(a@, b@),
        position == Position::Same <==> a@ == b@,
        position == Position::After <==> text_before(b@, a@),
{
    let x = a.as_bytes();
    let y = b.as_bytes();
    let mut i: usize = 0;
    while i < x.len() && i < y.len() && x[i] == y[i]
        invariant
            i <= x.len(),
            i <= y.len(),
            forall|j: int| 0 <= j < i ==> x[j] == y[j],
        decreases x.len() - i,
    {
        i = i + 1;
    }
    let ghost xs = encode_utf8(a@);
    let ghost ys = encode_utf8(b@);
    if i == x.len() && i == y.len() {
        proof {
            assert(xs =~= ys);
            encoding_is_injective(a@, b@);
            text_before_irreflexive(a@);
        }
        Position::Same
    } else if i == x.len() || (i < y.len() && x[i] < y[i]) {
        proof {
            assert(bytes_split_at(xs, ys, i as int));
            if text_before(b@, a@) {
                text_before_transitive(a@, b@, a@);
                text_before_irreflexive(a@);
            }
            if a@ == b@ {
                text_before_irreflexive(a@);
            }
        }
        Position::Before
    } else {
        proof {
            assert(bytes_split_at(ys, xs, i as int));
            if text_before(a@, b@) {
                text_before_transitive(a@, b@, a@);
                text_before_irreflexive(a@);
            }
            if a@ == b@ {
                text_before_irreflexive(a@);
            }
        }
        Position::After
    }
}

/// Whether two texts are equal.
pub fn same_text(a: &str, b: &str) -> (same: bool)
    ensures
        same == (a@ == b@),
{
    matches!(compare_text(a, b), Position::Same)
}

/// Keys in strictly ascending order.
pub open spec fn ascending<V>(entries: Seq<(String, V)>) -> bool {
    forall|i: int, j: int|
        0 <= i < j < entries.len() ==> text_before(#[trigger] entries[i].0@, #[trigger] entries[j].0@)
}

/// The map that a sequence of keyed values stands for.
pub open spec fn map_of<V>(entries: Seq<(String, V)>) -> Map<Seq<char>, V> {
    Map::new(
        |key: Seq<char>| exists|i: int| 0 <= i < entries.len() && #[trigger] entries[i].0@ == key,
        |key: Seq<char>|
            entries[choose|i: int| 0 <= i < entries.len() && #[trigger] entries[i].0@ == key].1,
    )
}

/// A map from texts to values that keeps its keys in order.
#[derive(Debug)]
#[verifier::reject_recursive_types(V)]
pub struct TextMap<V> {
    entries: Vec<(String, V)>,
}

impl<V> View for TextMap<V> {
    type V = Map<Seq<char>, V>;

    closed spec fn view(&self) -> Map<Seq<char>, V> {
        map_of(self.entries@)
    }
}

pub proof fn entry_is_mapped<V>(entries: Seq<(String, V)>, i: int)
    requires
        ascending(entries),
        0 <= i < entries.len(),
    ensures
        map_of(entries).contains_key(entries[i].0@),
        map_of(entries)[entries[i].0@] == entries[i].1,
{
    let key = entries[i].0@;
    let j = choose|j: int| 0 <= j < entries.len() && #[trigger] entries[j].0@ == key;
    text_before_irreflexive(key);
    assert(i == j);
}

impl<V> TextMap<V> {
    #[verifier::type_invariant]
    spec fn sorted(self) -> bool {
        ascending(self.entries@)
    }

    /// The keyed values in ascending order of their keys.
    pub closed spec fn in_order(&self) -> Seq<(String, V)> {
        self.entries@
    }

    /// What [`TextMap::in_order`] holds is exactly what the map holds, in
    /// strictly ascending order.
    pub fn as_slice(&self) -> (entries: &[(String, V)])
        ensures
            entries@ == self.in_order(),
            ascending(entries@),
            self@ == map_of(entries@),
    {
        proof {
            use_type_invariant(&*self);
        }
        self.entries.as_slice()
    }

    pub fn new() -> (map: Self)
        ensures
            map@ == Map::<Seq<char>, V>::empty(),
            map.in_order() == Seq::<(String, V)>::empty(),
    {
        let map = TextMap { entries: Vec::new() };
        assert(map@ =~= Map::empty());
        map
    }

    pub fn is_empty(&self) -> (empty: bool)
        ensures
            empty == (self@ == Map::<Seq<char>, V>::empty()),
            empty == (self.in_order().len() == 0),
    {
        proof {
            use_type_invariant(&*self);
            if self.entries@.len() > 0 {
                entry_is_mapped(self.entries@, 0);
            } else {
                assert(self@ =~= Map::empty());
            }
        }
        self.entries.len() == 0
    }

    /// The first position whose key does not stand before `key`.
    fn position(&self, key: &str) -> (at: usize)
        ensures
            at <= self.entries@.len(),
            forall|i: int| 0 <= i < at ==> text_before(#[trigger] self.entries@[i].0@, key@),
            forall|i: int|
                at <= i < self.entries@.len() ==> !text_before(#[trigger] self.entries@[i].0@, key@),
    {
        proof {
            use_type_invariant(&*self);
        }
        let mut low: usize = 0;
        let mut high: usize = self.entries.len();
        while low < high
            invariant
                low <= high <= self.entries@.len(),
                ascending(self.entries@),
                forall|i: int| 0 <= i < low ==> text_before(#[trigger] self.entries@[i].0@, key@),
                forall|i: int|
                    high <= i < self.entries@.len() ==> !text_before(
                        #[trigger] self.entries@[i].0@,
                        key@,
                    ),
            decreases high - low,
        {
            let middle: usize = low + (high - low) / 2;
            let position = compare_text(self.entries[middle].0.as_str(), key);
            if matches!(position, Position::Before) {
                proof {
                    assert forall|i: int| 0 <= i < middle + 1 implies text_before(
                        #[trigger] self.entries@[i].0@,
                        key@,
                    ) by {
                        if i < middle {
                            text_before_transitive(
                                self.entries@[i].0@,
                                self.entries@[middle as int].0@,
                                key@,
                            );
                        }
                    }
                }
                low = middle + 1;
            } else {
                proof {
                    assert forall|i: int| middle <= i < self.entries@.len() implies !text_before(
                        #[trigger] self.entries@[i].0@,
                        key@,
                    ) by {
                        if i > middle && text_before(self.entries@[i].0@, key@) {
                            text_before_transitive(
                                self.entries@[middle as int].0@,
                                self.entries@[i].0@,
                                key@,
                            );
                        }
                    }
                }
                high = middle;
            }
        }
        low
    }

    pub fn get(&self, key: &str) -> (value: Option<&V>)
        ensures
            match value {
                Some(value) => self@.contains_key(key@) && *value == self@[key@],
                None => !self@.contains_key(key@),
            },
    {
        proof {
            use_type_invariant(&*self);
        }
        let at: usize = self.position(key);
        if at < self.entries.len() && same_text(self.entries[at].0.as_str(), key) {
            proof {
                entry_is_mapped(self.entries@, at as int);
            }
            Some(&self.entries[at].1)
        } else {
            proof {
                if self@.contains_key(key@) {
                    let i = choose|i: int|
                        0 <= i < self.entries@.len() && #[trigger] self.entries@[i].0@ == key@;
                    text_before_irreflexive(key@);
                    assert(at < i);
                    assert(text_before(self.entries@[at as int].0@, self.entries@[i].0@));
                }
            }
            None
        }
    }

    pub fn insert(&mut self, key: String, value: V)
        ensures
            final(self)@ == old(self)@.insert(key@, value),
            final(self).in_order().len() <= old(self).in_order().len() + 1,
    {
        proof {
            use_type_invariant(&*self);
        }
        let at: usize = self.position(key.as_str());
        let ghost before = self.entries@;
        let mut entries: Vec<(String, V)> = Vec::new();
        std::mem::swap(&mut entries, &mut self.entries);
        let present = at < entries.len() && same_text(entries[at].0.as_str(), key.as_str());
        if present {
            entries.remove(at);
        }
        let ghost name = key@;
        let ghost rest = entries@;
        proof {
            assert forall|i: int| at <= i < rest.len() implies text_before(
                name,
                #[trigger] rest[i].0@,
            ) by {
                let j = if present {
                    i + 1
                } else {
                    i
                };
                assert(rest[i] == before[j]);
                assert(!text_before(before[j].0@, name));
                if at < j {
                    assert(text_before(before[at as int].0@, before[j].0@));
                }
                text_order_is_total(name, before[j].0@);
                if before[j].0@ == name && at < j {
                    assert(text_before(before[at as int].0@, name));
                }
            }
        }
        entries.insert(at, (key, value));
        let ghost after = entries@;
        proof {
            assert(forall|i: int| 0 <= i < at ==> after[i] == before[i]);
            assert(forall|i: int| at < i < after.len() ==> after[i] == rest[i - 1]);
            assert(ascending(after)) by {
                assert forall|i: int, j: int| 0 <= i < j < after.len() implies text_before(
                    #[trigger] after[i].0@,
                    #[trigger] after[j].0@,
                ) by {
                    if j > at {
                        let q = if present {
                            j
                        } else {
                            j - 1
                        };
                        assert(after[j] == rest[j - 1]);
                        assert(after[j] == before[q]);
                        if i > at {
                            let p = if present {
                                i
                            } else {
                                i - 1
                            };
                            assert(after[i] == rest[i - 1]);
                            assert(after[i] == before[p]);
                        }
                    }
                }
            }
            let grown = map_of(before).insert(name, value);
            assert(map_of(after) =~= grown) by {
                assert forall|k: Seq<char>|
                    #![trigger map_of(after).contains_key(k)]
                    #![trigger grown.contains_key(k)]
                    map_of(after).contains_key(k) == grown.contains_key(k) && (grown.contains_key(k)
                        ==> map_of(after)[k] == grown[k]) by {
                    if map_of(after).contains_key(k) {
                        let i = choose|i: int|
                            0 <= i < after.len() && #[trigger] after[i].0@ == k;
                        entry_is_mapped(after, i);
                        if i < at {
                            entry_is_mapped(before, i);
                            text_before_irreflexive(name);
                        } else if i > at {
                            let p = if present {
                                i
                            } else {
                                i - 1
                            };
                            assert(after[i] == rest[i - 1]);
                            assert(after[i] == before[p]);
                            entry_is_mapped(before, p);
                            text_before_irreflexive(name);
                        }
                    }
                    if map_of(before).contains_key(k) && k != name {
                        let i = choose|i: int|
                            0 <= i < before.len() && #[trigger] before[i].0@ == k;
                        let p = if i < at {
                            i
                        } else if present {
                            i
                        } else {
                            i + 1
                        };
                        assert(after[p].0@ == k);
                        entry_is_mapped(after, p);
                    }
                    if k == name {
                        assert(after[at as int].0@ == k);
                        entry_is_mapped(after, at as int);
                    }
                }
            }
        }
        self.entries = entries;
    }

    pub fn remove(&mut self, key: &str)
        ensures
            final(self)@ == old(self)@.remove(key@),
    {
        proof {
            use_type_invariant(&*self);
        }
        let at: usize = self.position(key);
        let ghost before = self.entries@;
        let mut entries: Vec<(String, V)> = Vec::new();
        std::mem::swap(&mut entries, &mut self.entries);
        let present = at < entries.len() && same_text(entries[at].0.as_str(), key);
        if present {
            entries.remove(at);
        }
        let ghost after = entries@;
        proof {
            let shift = |i: int| if present && i >= at { i + 1 } else { i };
            assert(forall|i: int| 0 <= i < after.len() ==> #[trigger] after[i] == before[shift(i)]);
            assert(ascending(after));
            let shrunk = map_of(before).remove(key@);
            assert(map_of(after) =~= shrunk) by {
                assert forall|k: Seq<char>|
                    #![trigger map_of(after).contains_key(k)]
                    #![trigger shrunk.contains_key(k)]
                    map_of(after).contains_key(k) == shrunk.contains_key(k) && (shrunk.contains_key(k)
                        ==> map_of(after)[k] == shrunk[k]) by {
                    text_before_irreflexive(key@);
                    if map_of(after).contains_key(k) {
                        let i = choose|i: int|
                            0 <= i < after.len() && #[trigger] after[i].0@ == k;
                        entry_is_mapped(after, i);
                        entry_is_mapped(before, shift(i));
                        if k == key@ {
                            assert(at <= shift(i));
                            assert(text_before(before[at as int].0@, before[shift(i)].0@));
                        }
                    }
                    if shrunk.contains_key(k) {
                        let i = choose|i: int|
                            0 <= i < before.len() && #[trigger] before[i].0@ == k;
                        entry_is_mapped(before, i);
                        let p = if present && i > at {
                            i - 1
                        } else {
                            i
                        };
                        assert(shift(p) == i);
                        assert(after[p].0@ == k);
                    }
                }
            }
        }
        self.entries = entries;
    }
}

/// Of two texts, one stands before the other unless they are equal.
pub proof fn text_order_is_total(a: Seq<char>, b: Seq<char>)
    ensures
        text_before(a, b) || a == b || text_before(b, a),
{
    let x = encode_utf8(a);
    let y = encode_utf8(b);
    let k = common_prefix(x, y);
    if k == x.len() && k == y.len() {
        assert(x =~= y);
        encoding_is_injective(a, b);
    } else if k == x.len() || (k < y.len() && x[k] < y[k]) {
        assert(bytes_split_at(x, y, k));
    } else {
        assert(bytes_split_at(y, x, k));
    }
}

proof fn common_prefix(x: Seq<u8>, y: Seq<u8>) -> (k: int)
    ensures
        0 <= k <= x.len(),
        k <= y.len(),
        forall|i: int| 0 <= i < k ==> x[i] == y[i],
        k < x.len() && k < y.len() ==> x[k] != y[k],
    decreases x.len(),
{
    if x.len() == 0 || y.len() == 0 || x[0] != y[0] {
        0
    } else {
        let k = common_prefix(x.drop_first(), y.drop_first());
        assert forall|i: int| 0 <= i < k + 1 implies x[i] == y[i] by {
            if i > 0 {
                assert(x.drop_first()[i - 1] == y.drop_first()[i - 1]);
            }
        }
        if k + 1 < x.len() && k + 1 < y.len() {
            assert(x.drop_first()[k] == x[k + 1]);
            assert(y.drop_first()[k] == y[k + 1]);
        }
        k + 1
    }
}

} // verus!
