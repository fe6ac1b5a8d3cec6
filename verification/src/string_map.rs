use vstd::prelude::*;

verus! {

/// The map that a sequence of (key, value) insertions builds when a later
/// insertion of a key replaces the value of an earlier one.
pub open spec fn map_of<T>(pairs: Seq<(Seq<char>, T)>) -> Map<Seq<char>, T>
    decreases pairs.len(),
{
    if pairs.len() == 0 {
        Map::empty()
    } else {
        map_of(pairs.drop_last()).insert(pairs.last().0, pairs.last().1)
    }
}

/// No key occurs twice among `pairs`.
pub open spec fn keys_distinct<T>(pairs: Seq<(Seq<char>, T)>) -> bool {
    forall|i: int, j: int| 0 <= i < j < pairs.len() ==> pairs[i].0 != pairs[j].0
}

/// A key of `map_of(pairs)` is a key of some pair, and each pair's key is one.
pub proof fn lemma_map_of_dom<T>(pairs: Seq<(Seq<char>, T)>, k: Seq<char>)
    ensures
        map_of(pairs).contains_key(k) <==> exists|i: int| 0 <= i < pairs.len() && pairs[i].0 == k,
    decreases pairs.len(),
{
    if pairs.len() > 0 {
        lemma_map_of_dom(pairs.drop_last(), k);
        if map_of(pairs.drop_last()).contains_key(k) {
            let i = choose|i: int| 0 <= i < pairs.drop_last().len() && pairs.drop_last()[i].0 == k;
            assert(pairs[i].0 == k);
        }
        if exists|i: int| 0 <= i < pairs.len() && pairs[i].0 == k {
            let i = choose|i: int| 0 <= i < pairs.len() && pairs[i].0 == k;
            if i < pairs.len() - 1 {
                assert(pairs.drop_last()[i].0 == k);
            }
        }
    }
}

/// Every value of `map_of(pairs)` is the value of a pair with its key.
pub proof fn lemma_map_of_from_pair<T>(pairs: Seq<(Seq<char>, T)>, k: Seq<char>)
    requires
        map_of(pairs).contains_key(k),
    ensures
        exists|i: int| 0 <= i < pairs.len() && pairs[i].0 == k && pairs[i].1 == map_of(pairs)[k],
    decreases pairs.len(),
{
    if pairs.last().0 == k {
        assert(pairs[pairs.len() - 1].0 == k);
    } else {
        lemma_map_of_from_pair(pairs.drop_last(), k);
        let i = choose|i: int|
            0 <= i < pairs.drop_last().len() && pairs.drop_last()[i].0 == k
                && pairs.drop_last()[i].1 == map_of(pairs.drop_last())[k];
        assert(pairs[i] == pairs.drop_last()[i]);
    }
}

/// With distinct keys, `map_of` sends each pair's key to that pair's value.
pub proof fn lemma_map_of_value<T>(pairs: Seq<(Seq<char>, T)>, i: int)
    requires
        keys_distinct(pairs),
        0 <= i < pairs.len(),
    ensures
        map_of(pairs).contains_key(pairs[i].0),
        map_of(pairs)[pairs[i].0] == pairs[i].1,
    decreases pairs.len(),
{
    if i < pairs.len() - 1 {
        assert(keys_distinct(pairs.drop_last()));
        lemma_map_of_value(pairs.drop_last(), i);
        assert(pairs.drop_last()[i] == pairs[i]);
        assert(pairs.last().0 != pairs[i].0);
    }
}

/// With distinct keys, the keys of `map_of(pairs)` are exactly the keys of the pairs,
/// and each is sent to its pair's value.
pub proof fn lemma_map_of<T>(pairs: Seq<(Seq<char>, T)>)
    requires
        keys_distinct(pairs),
    ensures
        forall|k: Seq<char>| #[trigger]
            map_of(pairs).contains_key(k) <==> exists|i: int|
                0 <= i < pairs.len() && pairs[i].0 == k,
        forall|i: int|
            0 <= i < pairs.len() ==> #[trigger] map_of(pairs)[pairs[i].0] == pairs[i].1
                && map_of(pairs).contains_key(pairs[i].0),
{
    assert forall|k: Seq<char>| #[trigger]
        map_of(pairs).contains_key(k) <==> exists|i: int|
            0 <= i < pairs.len() && pairs[i].0 == k by {
        lemma_map_of_dom(pairs, k);
    }
    assert forall|i: int| 0 <= i < pairs.len() implies #[trigger] map_of(pairs)[pairs[i].0]
        == pairs[i].1 && map_of(pairs).contains_key(pairs[i].0) by {
        lemma_map_of_value(pairs, i);
    }
}

/// Entries with their keys taken as text.
pub open spec fn pairs_of<T>(entries: Seq<(String, T)>) -> Seq<(Seq<char>, T)> {
    entries.map_values(|e: (String, T)| (e.0@, e.1))
}

/// A finite map from text keys to values that remembers the order in which its keys
/// were first inserted.
pub struct StringMap<T> {
    entries: Vec<(String, T)>,
}

impl<T> StringMap<T> {
    /// The entries, in the order their keys were first inserted.
    pub closed spec fn pairs(&self) -> Seq<(Seq<char>, T)> {
        pairs_of(self.entries@)
    }

    #[verifier::type_invariant]
    pub(crate) open spec fn keys_once(self) -> bool {
        keys_distinct(self.pairs())
    }

    /// Every key occurs once.
    pub open spec fn wf(&self) -> bool {
        keys_distinct(self.pairs())
    }


    /// An empty map.
    pub fn new() -> (map: Self)
        ensures
            map.wf(),
            map.pairs() == Seq::<(Seq<char>, T)>::empty(),
            map@ == Map::<Seq<char>, T>::empty(),
    {
        let map = StringMap { entries: Vec::new() };
        assert(map.pairs() =~= Seq::<(Seq<char>, T)>::empty());
        map
    }

    /// The number of keys.
    pub fn len(&self) -> (n: usize)
        ensures
            n == self.pairs().len(),
    {
        self.entries.len()
    }

    /// The key of the `i`-th entry.
    pub fn key_at(&self, i: usize) -> (key: &String)
        requires
            i < self.pairs().len(),
        ensures
            key@ == self.pairs()[i as int].0,
    {
        &self.entries[i].0
    }

    /// The value of the `i`-th entry.
    pub fn value_at(&self, i: usize) -> (value: &T)
        requires
            i < self.pairs().len(),
        ensures
            *value == self.pairs()[i as int].1,
    {
        &self.entries[i].1
    }

    /// The position of `key` among the entries.
    fn position(&self, key: &str) -> (pos: Option<usize>)
        ensures
            pos matches Some(i) ==> i < self.pairs().len() && self.pairs()[i as int].0 == key@,
            pos is None ==> forall|i: int| 0 <= i < self.pairs().len() ==> self.pairs()[i].0 != key@,
    {
        let mut i: usize = 0;
        while i < self.entries.len()
            invariant
                i <= self.pairs().len(),
                self.pairs().len() == self.entries@.len(),
                forall|j: int| 0 <= j < i ==> self.pairs()[j].0 != key@,
            decreases self.entries@.len() - i,
        {
            let k = self.entries[i].0.as_str();
            if string_eq(k, key) {
                return Some(i);
            }
            i = i + 1;
        }
        None
    }

    /// Whether `key` is a key of the map.
    pub fn contains_key(&self, key: &str) -> (found: bool)
        ensures
            found == self@.contains_key(key@),
    {
        proof {
            use_type_invariant(self);
            lemma_map_of(self.pairs());
        }
        self.position(key).is_some()
    }

    /// The value the map holds for `key`.
    pub fn get(&self, key: &str) -> (value: Option<&T>)
        ensures
            value matches Some(v) ==> self@.contains_key(key@) && self@[key@] == *v,
            value is None ==> !self@.contains_key(key@),
    {
        proof {
            use_type_invariant(self);
            lemma_map_of(self.pairs());
        }
        match self.position(key) {
            Some(i) => Some(&self.entries[i].1),
            None => None,
        }
    }

    /// Maps `key` to `value`, replacing the value it held before, if any.
    pub fn insert(&mut self, key: String, value: T)
        ensures
            final(self).wf(),
            final(self)@ == old(self)@.insert(key@, value),
    {
        proof {
            use_type_invariant(&*self);
        }
        let ghost old_pairs = self.pairs();
        let ghost k = key@;
        proof {
            lemma_map_of(old_pairs);
        }
        let pos = self.position(key.as_str());
        let mut entries: Vec<(String, T)> = Vec::new();
        std::mem::swap(&mut entries, &mut self.entries);
        assert(pairs_of(entries@) == old_pairs);
        match pos {
            Some(i) => {
                entries.set(i, (key, value));
                assert(pairs_of(entries@) =~= old_pairs.update(i as int, (k, value)));
                assert(forall|j: int|
                    0 <= j < old_pairs.len() ==> pairs_of(entries@)[j].0 == old_pairs[j].0);
                assert(keys_distinct(pairs_of(entries@)));
            },
            None => {
                entries.push((key, value));
                assert(pairs_of(entries@) =~= old_pairs.push((k, value)));
            },
        }
        self.entries = entries;
        proof {
            let new_pairs = self.pairs();
            lemma_map_of(new_pairs);
            let expected = map_of(old_pairs).insert(k, value);
            match pos {
                Some(i) => {
                    assert forall|x: Seq<char>| #[trigger]
                        self@.contains_key(x) == expected.contains_key(x) by {
                        if self@.contains_key(x) {
                            let j = choose|j: int| 0 <= j < new_pairs.len() && new_pairs[j].0 == x;
                            assert(old_pairs[j].0 == x);
                        }
                        if map_of(old_pairs).contains_key(x) {
                            let j = choose|j: int| 0 <= j < old_pairs.len() && old_pairs[j].0 == x;
                            assert(new_pairs[j].0 == x);
                        }
                    }
                    assert forall|x: Seq<char>| self@.contains_key(x) implies self@[x]
                        == expected[x] by {
                        let j = choose|j: int| 0 <= j < new_pairs.len() && new_pairs[j].0 == x;
                        assert(self@[new_pairs[j].0] == new_pairs[j].1);
                        if j != i {
                            assert(map_of(old_pairs)[old_pairs[j].0] == old_pairs[j].1);
                        }
                    }
                    assert(self@ =~= expected);
                },
                None => {
                    assert(new_pairs.drop_last() =~= old_pairs);
                },
            }
        }
    }

    /// Takes the value of `key` out of the map, if it has one; the other keys keep their
    /// values.
    pub fn remove(&mut self, key: &str) -> (value: Option<T>)
        ensures
            final(self)@ == old(self)@.remove(key@),
            value matches Some(v) ==> old(self)@.contains_key(key@) && old(self)@[key@] == v,
            value is None ==> !old(self)@.contains_key(key@),
    {
        proof {
            use_type_invariant(&*self);
        }
        let ghost old_pairs = self.pairs();
        let ghost k = key@;
        proof {
            lemma_map_of(old_pairs);
        }
        match self.position(key) {
            Some(i) => {
                let mut entries: Vec<(String, T)> = Vec::new();
                std::mem::swap(&mut entries, &mut self.entries);
                assert(pairs_of(entries@) == old_pairs);
                let (_, value) = entries.remove(i);
                let ghost new_pairs = pairs_of(entries@);
                assert(new_pairs =~= old_pairs.remove(i as int));
                assert forall|a: int, b: int| 0 <= a < b < new_pairs.len() implies new_pairs[a].0
                    != new_pairs[b].0 by {
                    if a < i {
                        if b < i {
                        } else {
                            assert(new_pairs[b] == old_pairs[b + 1]);
                        }
                    } else {
                        assert(new_pairs[a] == old_pairs[a + 1]);
                        assert(new_pairs[b] == old_pairs[b + 1]);
                    }
                }
                self.entries = entries;
                proof {
                    lemma_map_of(new_pairs);
                    let expected = map_of(old_pairs).remove(k);
                    assert forall|x: Seq<char>| #[trigger]
                        self@.contains_key(x) == expected.contains_key(x) by {
                        if self@.contains_key(x) {
                            let j = choose|j: int| 0 <= j < new_pairs.len() && new_pairs[j].0 == x;
                            if j < i {
                                assert(old_pairs[j].0 == x);
                                assert(j != i);
                            } else {
                                assert(old_pairs[j + 1].0 == x);
                            }
                        }
                        if expected.contains_key(x) {
                            let j = choose|j: int| 0 <= j < old_pairs.len() && old_pairs[j].0 == x;
                            assert(j != i);
                            if j < i {
                                assert(new_pairs[j].0 == x);
                            } else {
                                assert(new_pairs[j - 1].0 == x);
                            }
                        }
                    }
                    assert forall|x: Seq<char>| self@.contains_key(x) implies self@[x]
                        == expected[x] by {
                        let j = choose|j: int| 0 <= j < new_pairs.len() && new_pairs[j].0 == x;
                        assert(self@[new_pairs[j].0] == new_pairs[j].1);
                        if j < i {
                            assert(map_of(old_pairs)[old_pairs[j].0] == old_pairs[j].1);
                        } else {
                            assert(map_of(old_pairs)[old_pairs[j + 1].0] == old_pairs[j + 1].1);
                        }
                    }
                    assert(self@ =~= expected);
                }
                Some(value)
            },
            None => {
                assert(self@ =~= map_of(old_pairs).remove(k));
                None
            },
        }
    }

    /// The keys, in entry order.
    pub fn keys(&self) -> (keys: Vec<String>)
        ensures
            keys@.map_values(|k: String| k@) == self.pairs().map_values(
                |p: (Seq<char>, T)| p.0,
            ),
    {
        let mut keys: Vec<String> = Vec::new();
        let mut i: usize = 0;
        while i < self.entries.len()
            invariant
                i <= self.pairs().len(),
                self.pairs().len() == self.entries@.len(),
                keys@.len() == i,
                forall|j: int| 0 <= j < i ==> #[trigger] keys@[j]@ == self.pairs()[j].0,
            decreases self.entries@.len() - i,
        {
            let key = self.entries[i].0.clone();
            assert(self.pairs()[i as int].0 == key@);
            keys.push(key);
            i = i + 1;
        }
        assert(keys@.map_values(|k: String| k@) =~= self.pairs().map_values(
            |p: (Seq<char>, T)| p.0,
        ));
        keys
    }
}

impl<T> View for StringMap<T> {
    type V = Map<Seq<char>, T>;

    open spec fn view(&self) -> Map<Seq<char>, T> {
        map_of(self.pairs())
    }
}

/// Whether two texts are equal.
pub fn string_eq(a: &str, b: &str) -> (equal: bool)
    ensures
        equal == (a@ == b@),
{
    let a_chars = crate::text::chars_of(a);
    let b_chars = crate::text::chars_of(b);
    if a_chars.len() != b_chars.len() {
        return false;
    }
    let mut i: usize = 0;
    while i < a_chars.len()
        invariant
            a_chars@ == a@,
            b_chars@ == b@,
            a@.len() == b@.len(),
            i <= a@.len(),
            forall|j: int| 0 <= j < i ==> a@[j] == b@[j],
        decreases a@.len() - i,
    {
        if a_chars[i] != b_chars[i] {
            return false;
        }
        i = i + 1;
    }
    assert(a@ =~= b@);
    true
}

} // verus!
