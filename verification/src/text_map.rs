//! A map from names to texts, kept as a list of entries with distinct names.
use vstd::prelude::*;
use crate::text::{chars_of, same_chars};

verus! {

/// Whether two string slices hold the same characters.
pub fn str_eq(a: &str, b: &str) -> (r: bool)
    ensures
        r == (a@ == b@),
{
    let x = chars_of(a);
    let y = chars_of(b);
    same_chars(&x, &y)
}

/// A finite map from texts to texts. Its entries never repeat a name.
pub struct TextMap {
    entries: Vec<(String, String)>,
}

impl TextMap {
    #[verifier::type_invariant]
    spec fn names_distinct(self) -> bool {
        forall|i: int, j: int|
            0 <= i < j < self.entries@.len() ==> (#[trigger] self.entries@[i]).0@ != (
            #[trigger] self.entries@[j]).0@
    }

    /// Some entry has the name `k`.
    pub closed spec fn has(self, k: Seq<char>) -> bool {
        exists|i: int| 0 <= i < self.entries@.len() && (#[trigger] self.entries@[i]).0@ == k
    }

    /// The position of the entry named `k`.
    closed spec fn position(self, k: Seq<char>) -> int {
        choose|i: int| 0 <= i < self.entries@.len() && (#[trigger] self.entries@[i]).0@ == k
    }

    /// The text under `k`.
    closed spec fn text(self, k: Seq<char>) -> Seq<char> {
        self.entries@[self.position(k)].1@
    }

    proof fn lemma_position(self, i: int)
        requires
            self.names_distinct(),
            0 <= i < self.entries@.len(),
        ensures
            self.has(self.entries@[i].0@),
            self.position(self.entries@[i].0@) == i,
    {
        let k = self.entries@[i].0@;
        assert(self.has(k));
        let p = self.position(k);
        if p < i {
            assert(self.entries@[p].0@ != self.entries@[i].0@);
        } else if p > i {
            assert(self.entries@[i].0@ != self.entries@[p].0@);
        }
    }
}

impl View for TextMap {
    type V = Map<Seq<char>, Seq<char>>;

    closed spec fn view(&self) -> Map<Seq<char>, Seq<char>> {
        Map::new(|k: Seq<char>| self.has(k), |k: Seq<char>| self.text(k))
    }
}

impl TextMap {
    /// The empty map.
    pub fn new() -> (m: TextMap)
        ensures
            m@ == Map::<Seq<char>, Seq<char>>::empty(),
    {
        let m = TextMap { entries: Vec::new() };
        assert(m@ =~= Map::<Seq<char>, Seq<char>>::empty());
        m
    }

    /// The position of the entry named `key`, if there is one.
    fn find(&self, key: &str) -> (r: Option<usize>)
        ensures
            match r {
                Some(i) => i < self.entries@.len() && self.entries@[i as int].0@ == key@,
                None => !self.has(key@),
            },
    {
        position_in(&self.entries, key)
    }

    /// Whether some entry is named `key`.
    pub fn contains_key(&self, key: &str) -> (r: bool)
        ensures
            r == self@.contains_key(key@),
    {
        self.find(key).is_some()
    }

    /// The text under `key`, if there is one.
    pub fn get(&self, key: &str) -> (r: Option<&String>)
        ensures
            match r {
                Some(v) => self@.contains_key(key@) && v@ == self@[key@],
                None => !self@.contains_key(key@),
            },
    {
        proof {
            use_type_invariant(self);
        }
        match self.find(key) {
            Some(i) => {
                proof {
                    self.lemma_position(i as int);
                }
                Some(&self.entries[i].1)
            },
            None => None,
        }
    }

    /// Puts `value` under `key`, replacing what was there.
    pub fn insert(&mut self, key: String, value: String)
        ensures
            final(self)@ == old(self)@.insert(key@, value@),
    {
        proof {
            use_type_invariant(&*self);
        }
        let ghost before = *self;
        let ghost k = key@;
        let ghost v = value@;
        let mut entries: Vec<(String, String)> = Vec::new();
        std::mem::swap(&mut entries, &mut self.entries);
        let at = match position_in(&entries, key.as_str()) {
            Some(i) => {
                entries.set(i, (key, value));
                i
            },
            None => {
                let n = entries.len();
                entries.push((key, value));
                n
            },
        };
        let m = TextMap { entries };
        proof {
            Self::lemma_put_at(before, m, at as int, k, v);
        }
        *self = m;
    }

    /// `m` is `before` with the entry `(k, v)` put at position `at`: in place
    /// of the entry named `k`, or after the last where there is none.
    proof fn lemma_put_at(before: TextMap, m: TextMap, at: int, k: Seq<char>, v: Seq<char>)
        requires
            before.names_distinct(),
            0 <= at <= before.entries@.len(),
            m.entries@.len() == if at < before.entries@.len() {
                before.entries@.len()
            } else {
                before.entries@.len() + 1
            },
            m.entries@[at].0@ == k,
            m.entries@[at].1@ == v,
            forall|j: int| 0 <= j < m.entries@.len() && j != at ==> m.entries@[j] == before.entries@[j],
            at < before.entries@.len() ==> before.entries@[at].0@ == k,
            at == before.entries@.len() ==> !before.has(k),
        ensures
            m.names_distinct(),
            m@ == before@.insert(k, v),
    {
        let n = before.entries@.len();
        assert forall|a: int, b: int| 0 <= a < b < m.entries@.len() implies (#[trigger] m.entries@[a]).0@
            != (#[trigger] m.entries@[b]).0@ by {
            if a != at && b != at {
                assert(m.entries@[a] == before.entries@[a] && m.entries@[b] == before.entries@[b]);
                assert(before.entries@[a].0@ != before.entries@[b].0@);
            } else if b == at {
                assert(m.entries@[a] == before.entries@[a]);
                if at < n {
                    assert(before.entries@[a].0@ != before.entries@[b].0@);
                } else {
                    assert(before.entries@[a].0@ != k);
                }
            } else {
                assert(m.entries@[b] == before.entries@[b]);
                assert(b < n);
                assert(before.entries@[a].0@ != before.entries@[b].0@);
            }
        }
        assert forall|q: Seq<char>| #[trigger] m.has(q) == before@.insert(k, v).contains_key(q) by {
            if m.has(q) {
                let p = m.position(q);
                if p != at {
                    assert(before.entries@[p] == m.entries@[p]);
                }
            }
            if before.has(q) {
                let p = before.position(q);
                if p != at {
                    assert(before.entries@[p] == m.entries@[p]);
                    assert(m.entries@[p].0@ == q);
                } else {
                    assert(m.entries@[at].0@ == q);
                }
                assert(m.has(q));
            }
            if q == k {
                assert(m.entries@[at].0@ == k);
            }
        }
        assert forall|q: Seq<char>| m.has(q) implies #[trigger] m.text(q) == before@.insert(k, v)[q] by {
            let p = m.position(q);
            m.lemma_position(p);
            if q == k {
                m.lemma_position(at);
            } else {
                assert(p != at);
                assert(before.entries@[p] == m.entries@[p]);
                before.lemma_position(p);
            }
        }
        assert(m@ =~= before@.insert(k, v));
    }

    /// The map that inserting `pairs` in order into an empty map gives: a
    /// later pair wins over an earlier one with the same name.
    pub open spec fn map_of_pairs(pairs: Seq<(Seq<char>, Seq<char>)>) -> Map<Seq<char>, Seq<char>>
        decreases pairs.len(),
    {
        if pairs.len() == 0 {
            Map::empty()
        } else {
            Self::map_of_pairs(pairs.drop_last()).insert(pairs.last().0, pairs.last().1)
        }
    }

    /// Where no two pairs share a name, the map holds exactly the pairs.
    proof fn lemma_map_of_distinct_pairs(pairs: Seq<(Seq<char>, Seq<char>)>)
        requires
            forall|i: int, j: int| 0 <= i < j < pairs.len() ==> (#[trigger] pairs[i]).0 != (#[trigger] pairs[j]).0,
        ensures
            forall|i: int| 0 <= i < pairs.len() ==> Self::map_of_pairs(pairs).contains_key((#[trigger] pairs[i]).0)
                && Self::map_of_pairs(pairs)[pairs[i].0] == pairs[i].1,
            forall|k: Seq<char>| #[trigger] Self::map_of_pairs(pairs).contains_key(k) ==> exists|i: int|
                0 <= i < pairs.len() && (#[trigger] pairs[i]).0 == k,
        decreases pairs.len(),
    {
        if pairs.len() > 0 {
            let front = pairs.drop_last();
            assert forall|i: int, j: int| 0 <= i < j < front.len() implies (#[trigger] front[i]).0 != (
            #[trigger] front[j]).0 by {
                assert(front[i] == pairs[i] && front[j] == pairs[j]);
            }
            Self::lemma_map_of_distinct_pairs(front);
            let n = pairs.len() - 1;
            assert forall|i: int| 0 <= i < pairs.len() implies Self::map_of_pairs(pairs).contains_key(
                (#[trigger] pairs[i]).0,
            ) && Self::map_of_pairs(pairs)[pairs[i].0] == pairs[i].1 by {
                if i < n {
                    assert(front[i] == pairs[i]);
                    assert(pairs[i].0 != pairs[n].0);
                }
            }
            assert forall|k: Seq<char>| #[trigger] Self::map_of_pairs(pairs).contains_key(k) implies exists|i: int|
                0 <= i < pairs.len() && (#[trigger] pairs[i]).0 == k by {
                if k != pairs[n].0 {
                    assert(Self::map_of_pairs(front).contains_key(k));
                    let i = choose|i: int| 0 <= i < front.len() && (#[trigger] front[i]).0 == k;
                    assert(pairs[i] == front[i]);
                } else {
                    assert(pairs[n].0 == k);
                }
            }
        }
    }

    /// The map holding `pairs`, inserted in order.
    pub fn from_pairs(pairs: Vec<(String, String)>) -> (m: TextMap)
        ensures
            m@ == Self::map_of_pairs(pairs.deep_view()),
    {
        let mut m = TextMap::new();
        let ghost dv = pairs.deep_view();
        let mut i: usize = 0;
        assert(dv.take(0) =~= Seq::<(Seq<char>, Seq<char>)>::empty());
        while i < pairs.len()
            invariant
                i <= pairs.len(),
                dv == pairs.deep_view(),
                m@ == Self::map_of_pairs(dv.take(i as int)),
            decreases pairs.len() - i,
        {
            assert(dv.take(i + 1).drop_last() =~= dv.take(i as int));
            assert(dv[i as int] == (pairs@[i as int].0@, pairs@[i as int].1@));
            let k = pairs[i].0.clone();
            let v = pairs[i].1.clone();
            m.insert(k, v);
            i = i + 1;
        }
        assert(dv.take(dv.len() as int) =~= dv);
        m
    }

    /// The entries of the map, each name once.
    pub fn to_pairs(&self) -> (r: Vec<(String, String)>)
        ensures
            forall|i: int| 0 <= i < r.len() ==> self@.contains_key((#[trigger] r@[i]).0@)
                && self@[r@[i].0@] == r@[i].1@,
            forall|k: Seq<char>| #[trigger] self@.contains_key(k) ==> exists|i: int|
                0 <= i < r.len() && (#[trigger] r@[i]).0@ == k,
            forall|i: int, j: int| 0 <= i < j < r.len() ==> (#[trigger] r@[i]).0@ != (#[trigger] r@[j]).0@,
            Self::map_of_pairs(r.deep_view()) == self@,
    {
        proof {
            use_type_invariant(self);
        }
        let mut r: Vec<(String, String)> = Vec::new();
        let mut i: usize = 0;
        while i < self.entries.len()
            invariant
                i <= self.entries@.len(),
                r@.len() == i,
                forall|j: int| 0 <= j < i ==> (#[trigger] r@[j]).0@ == self.entries@[j].0@
                    && r@[j].1@ == self.entries@[j].1@,
            decreases self.entries.len() - i,
        {
            let k = self.entries[i].0.clone();
            let v = self.entries[i].1.clone();
            r.push((k, v));
            i = i + 1;
        }
        proof {
            assert forall|j: int| 0 <= j < r.len() implies self@.contains_key((#[trigger] r@[j]).0@)
                && self@[r@[j].0@] == r@[j].1@ by {
                self.lemma_position(j);
            }
            assert forall|k: Seq<char>| #[trigger] self@.contains_key(k) implies exists|j: int|
                0 <= j < r.len() && (#[trigger] r@[j]).0@ == k by {
                let p = self.position(k);
                assert(r@[p].0@ == k);
            }
            assert forall|a: int, b: int| 0 <= a < b < r.len() implies (#[trigger] r@[a]).0@
                != (#[trigger] r@[b]).0@ by {
                assert(self.entries@[a].0@ != self.entries@[b].0@);
            }
            let dv = r.deep_view();
            assert forall|a: int| 0 <= a < dv.len() implies #[trigger] dv[a] == (r@[a].0@, r@[a].1@) by {}
            Self::lemma_map_of_distinct_pairs(dv);
            assert(Self::map_of_pairs(dv) =~= self@) by {
                assert forall|k: Seq<char>| #[trigger] self@.contains_key(k) implies Self::map_of_pairs(
                    dv,
                ).contains_key(k) && Self::map_of_pairs(dv)[k] == self@[k] by {
                    let j = choose|j: int| 0 <= j < r.len() && (#[trigger] r@[j]).0@ == k;
                    assert(dv[j].0 == k);
                }
            }
        }
        r
    }
}

fn position_in(entries: &Vec<(String, String)>, key: &str) -> (r: Option<usize>)
    ensures
        match r {
            Some(i) => i < entries@.len() && entries@[i as int].0@ == key@,
            None => forall|j: int| 0 <= j < entries@.len() ==> (#[trigger] entries@[j]).0@ != key@,
        },
{
    let mut i: usize = 0;
    while i < entries.len()
        invariant
            i <= entries@.len(),
            forall|j: int| 0 <= j < i ==> (#[trigger] entries@[j]).0@ != key@,
        decreases entries.len() - i,
    {
        if str_eq(entries[i].0.as_str(), key) {
            return Some(i);
        }
        i = i + 1;
    }
    None
}

} // verus!
