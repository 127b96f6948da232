//! A store of answers already obtained, keyed by the request that produced
//! them (prompts to the model, build commands with their sources).
use vstd::prelude::*;

verus! {

/// The map that a sequence of `(key, value)` pairs with distinct keys holds.
pub open spec fn pairs_map(es: Seq<(Seq<char>, Seq<char>)>) -> Map<Seq<char>, Seq<char>> {
    Map::new(
        |k: Seq<char>| exists|i: int| 0 <= i < es.len() && es[i].0 == k,
        |k: Seq<char>| es[choose|i: int| 0 <= i < es.len() && es[i].0 == k].1,
    )
}

/// No two pairs share a key.
pub open spec fn keys_distinct(es: Seq<(Seq<char>, Seq<char>)>) -> bool {
    forall|i: int, j: int| 0 <= i < j < es.len() ==> es[i].0 != es[j].0
}

/// The models of a vector of string pairs.
pub open spec fn pairs_view(v: Seq<(String, String)>) -> Seq<(Seq<char>, Seq<char>)> {
    v.map_values(|p: (String, String)| (p.0@, p.1@))
}

/// The map that inserting the pairs one after the other gives (a later pair
/// replaces an earlier one with the same key).
pub open spec fn insert_all(ps: Seq<(Seq<char>, Seq<char>)>) -> Map<Seq<char>, Seq<char>>
    decreases ps.len(),
{
    if ps.len() == 0 {
        Map::empty()
    } else {
        insert_all(ps.drop_last()).insert(ps.last().0, ps.last().1)
    }
}

/// What `serde_json::from_str::<HashMap<String, String>>` reads from
/// `text`, or `None` where it fails.
pub uninterp spec fn read_cache_json(text: Seq<char>) -> Option<Map<Seq<char>, Seq<char>>>;

/// `serde_json::from_str::<HashMap<String, String>>(text)`, the pairs of
/// the map handed out in a vector (in the order the hash map walks them,
/// which is not stated): the result is the one named by `read_cache_json`.
#[verifier::external_body]
fn decode_cache_json(text: &str) -> (res: Option<Vec<(String, String)>>)
    ensures
        match res {
            Some(v) => keys_distinct(pairs_view(v@)) && read_cache_json(text@) == Some(
                pairs_map(pairs_view(v@)),
            ),
            None => read_cache_json(text@) is None,
        },
{
    match serde_json::from_str::<std::collections::HashMap<String, String>>(text) {
        Ok(m) => Some(m.into_iter().collect()),
        Err(_) => None,
    }
}

/// `serde_json::to_string` of the pairs gathered in a `HashMap`: a JSON
/// object (the order of its members follows the hash map and is not stated;
/// writing string keys and values does not fail) that
/// `serde_json::from_str::<HashMap<String, String>>` reads back as the map
/// the pairs hold.
#[verifier::external_body]
fn encode_cache_json(pairs: &Vec<(String, String)>) -> (res: Option<String>)
    requires
        keys_distinct(pairs_view(pairs@)),
    ensures
        res is Some,
        read_cache_json(res->0@) == Some(pairs_map(pairs_view(pairs@))),
{
    let m: std::collections::HashMap<&String, &String> = pairs.iter().map(|p| (&p.0, &p.1)).collect();
    serde_json::to_string(&m).ok()
}

/// A map from request texts to answer texts.
pub struct Cache {
    entries: Vec<(String, String)>,
}

impl View for Cache {
    type V = Map<Seq<char>, Seq<char>>;

    closed spec fn view(&self) -> Map<Seq<char>, Seq<char>> {
        pairs_map(pairs_view(self.entries@))
    }
}

proof fn lemma_pairs_map_at(es: Seq<(Seq<char>, Seq<char>)>, i: int)
    requires
        keys_distinct(es),
        0 <= i < es.len(),
    ensures
        pairs_map(es).contains_key(es[i].0),
        pairs_map(es)[es[i].0] == es[i].1,
{
    let k = es[i].0;
    assert(pairs_map(es).dom().contains(k));
    let j = choose|j: int| 0 <= j < es.len() && es[j].0 == k;
    assert(j == i);
}

impl Cache {
    #[verifier::type_invariant]
    spec fn inv(self) -> bool {
        keys_distinct(pairs_view(self.entries@))
    }

    /// An empty cache.
    pub fn new() -> (res: Cache)
        ensures
            res@ == Map::<Seq<char>, Seq<char>>::empty(),
    {
        let res = Cache { entries: Vec::new() };
        assert(res@ =~= Map::<Seq<char>, Seq<char>>::empty());
        res
    }

    /// The number of keys.
    pub fn len(&self) -> (res: usize)
        ensures
            res == self@.len(),
    {
        proof {
            use_type_invariant(self);
            self.lemma_dom();
        }
        self.entries.len()
    }

    proof fn lemma_dom(&self)
        requires
            keys_distinct(pairs_view(self.entries@)),
        ensures
            self@.dom().finite(),
            self@.len() == self.entries@.len(),
    {
        let es = pairs_view(self.entries@);
        lemma_distinct_len(es);
    }

    /// The position of `key`, if it is a key.
    fn position(&self, key: &String) -> (res: Option<usize>)
        ensures
            match res {
                Some(i) => i < self.entries@.len() && self.entries@[i as int].0@ == key@,
                None => !self@.contains_key(key@),
            },
    {
        let mut i: usize = 0;
        while i < self.entries.len()
            invariant
                i <= self.entries@.len(),
                forall|j: int| 0 <= j < i ==> self.entries@[j].0@ != key@,
            decreases self.entries@.len() - i,
        {
            if self.entries[i].0 == *key {
                return Some(i);
            }
            i = i + 1;
        }
        assert forall|j: int| 0 <= j < self.entries@.len() implies pairs_view(self.entries@)[j].0
            != key@ by {
            assert(pairs_view(self.entries@)[j].0 == self.entries@[j].0@);
        }
        None
    }

    /// The answer stored for `key`, if any.
    pub fn get(&self, key: &str) -> (res: Option<&String>)
        ensures
            match res {
                Some(v) => self@.contains_key(key@) && self@[key@] == v@,
                None => !self@.contains_key(key@),
            },
    {
        proof {
            use_type_invariant(self);
        }
        let k = String::from_str(key);
        match self.position(&k) {
            Some(i) => {
                proof {
                    assert(pairs_view(self.entries@)[i as int] == (
                        self.entries@[i as int].0@,
                        self.entries@[i as int].1@,
                    ));
                    lemma_pairs_map_at(pairs_view(self.entries@), i as int);
                }
                Some(&self.entries[i].1)
            },
            None => None,
        }
    }

    /// Stores `value` for `key`, replacing what was stored for it.
    pub fn set(&mut self, key: String, value: String)
        ensures
            final(self)@ == old(self)@.insert(key@, value@),
    {
        proof {
            use_type_invariant(&*self);
        }
        let ghost before = pairs_view(self.entries@);
        let ghost kv = key@;
        let ghost vv = value@;
        let pos = self.position(&key);
        let mut es: Vec<(String, String)> = Vec::new();
        std::mem::swap(&mut es, &mut self.entries);
        match pos {
            Some(i) => {
                proof {
                    assert(before[i as int] == (es@[i as int].0@, es@[i as int].1@));
                    assert(before[i as int].0 == kv);
                }
                es.remove(i);
                es.insert(i, (key, value));
                proof {
                    let after = pairs_view(es@);
                    assert(after =~= before.update(i as int, (kv, vv)));
                    assert(keys_distinct(after)) by {
                        assert forall|a: int, b: int| 0 <= a < b < after.len() implies after[a].0
                            != after[b].0 by {
                            if a != i && b != i {
                                assert(after[a] == before[a]);
                                assert(after[b] == before[b]);
                            } else if a == i {
                                assert(after[b] == before[b]);
                            } else {
                                assert(after[a] == before[a]);
                            }
                        }
                    }
                    assert(pairs_map(after) =~= pairs_map(before).insert(kv, vv)) by {
                        lemma_pairs_map_at(after, i as int);
                        assert forall|k: Seq<char>| #[trigger]
                            pairs_map(after).contains_key(k) == pairs_map(before).insert(
                                kv,
                                vv,
                            ).contains_key(k) by {
                            if k != kv {
                                if pairs_map(before).contains_key(k) {
                                    let j = choose|j: int| 0 <= j < before.len() && before[j].0 == k;
                                    assert(after[j] == before[j]);
                                }
                                if pairs_map(after).contains_key(k) {
                                    let j = choose|j: int| 0 <= j < after.len() && after[j].0 == k;
                                    assert(after[j] == before[j]);
                                }
                            }
                        }
                        assert forall|k: Seq<char>| #[trigger]
                            pairs_map(after).contains_key(k) && k != kv implies pairs_map(after)[k]
                            == pairs_map(before)[k] by {
                            let j = choose|j: int| 0 <= j < after.len() && after[j].0 == k;
                            assert(after[j] == before[j]);
                            lemma_pairs_map_at(after, j);
                            lemma_pairs_map_at(before, j);
                        }
                    }
                }
            },
            None => {
                es.push((key, value));
                proof {
                    let after = pairs_view(es@);
                    assert(after =~= before.push((kv, vv)));
                    assert(!pairs_map(before).contains_key(kv));
                    assert(keys_distinct(after)) by {
                        assert forall|a: int, b: int| 0 <= a < b < after.len() implies after[a].0
                            != after[b].0 by {
                            if b == before.len() {
                                assert(after[a] == before[a]);
                            }
                        }
                    }
                    assert(pairs_map(after) =~= pairs_map(before).insert(kv, vv)) by {
                        lemma_pairs_map_at(after, before.len() as int);
                        assert forall|k: Seq<char>| #[trigger]
                            pairs_map(after).contains_key(k) == pairs_map(before).insert(
                                kv,
                                vv,
                            ).contains_key(k) by {
                            if k != kv {
                                if pairs_map(before).contains_key(k) {
                                    let j = choose|j: int| 0 <= j < before.len() && before[j].0 == k;
                                    assert(after[j] == before[j]);
                                }
                                if pairs_map(after).contains_key(k) {
                                    let j = choose|j: int| 0 <= j < after.len() && after[j].0 == k;
                                    assert(j < before.len());
                                    assert(after[j] == before[j]);
                                }
                            }
                        }
                        assert forall|k: Seq<char>| #[trigger]
                            pairs_map(after).contains_key(k) && k != kv implies pairs_map(after)[k]
                            == pairs_map(before)[k] by {
                            let j = choose|j: int| 0 <= j < after.len() && after[j].0 == k;
                            assert(j < before.len());
                            assert(after[j] == before[j]);
                            lemma_pairs_map_at(after, j);
                            lemma_pairs_map_at(before, j);
                        }
                    }
                }
            },
        }
        self.entries = es;
    }

    /// A cache holding the pairs, each stored in turn (a later pair replaces
    /// an earlier one with the same key).
    pub fn from_pairs(pairs: Vec<(String, String)>) -> (res: Cache)
        ensures
            res@ == insert_all(pairs_view(pairs@)),
    {
        let ghost pv = pairs_view(pairs@);
        let mut res = Cache::new();
        let mut rest = pairs;
        let mut taken: Vec<(String, String)> = Vec::new();
        let mut k: usize = 0;
        let n = rest.len();
        assert(pv.take(0) =~= Seq::<(Seq<char>, Seq<char>)>::empty());
        while k < n
            invariant
                k <= n == pv.len(),
                pairs_view(rest@) == pv.skip(k as int),
                res@ == insert_all(pv.take(k as int)),
            decreases n - k,
        {
            let ghost before = rest@;
            assert(pairs_view(before).len() == before.len());
            let (key, value) = rest.remove(0);
            assert(pv[k as int] == pv.skip(k as int)[0]);
            assert(pairs_view(before)[0] == (before[0].0@, before[0].1@));
            assert forall|j: int| 0 <= j < rest@.len() implies #[trigger] pairs_view(rest@)[j]
                == pv.skip(k + 1)[j] by {
                assert(rest@[j] == before[j + 1]);
                assert(pairs_view(before)[j + 1] == (before[j + 1].0@, before[j + 1].1@));
            }
            assert(pairs_view(rest@) =~= pv.skip(k + 1));
            assert(pv.take(k + 1).drop_last() =~= pv.take(k as int));
            res.set(key, value);
            k = k + 1;
        }
        assert(pv.take(n as int) =~= pv);
        res
    }

    /// The cache that a JSON object of string members holds (the text that
    /// `to_json` writes), or `None` where the text is not one.
    pub fn from_json(text: &str) -> (res: Option<Cache>)
        ensures
            match res {
                Some(c) => read_cache_json(text@) == Some(c@),
                None => read_cache_json(text@) is None,
            },
    {
        match decode_cache_json(text) {
            Some(pairs) => {
                let ghost pv = pairs_view(pairs@);
                let c = Cache::from_pairs(pairs);
                proof {
                    lemma_restore_after_save(pv);
                }
                Some(c)
            },
            None => None,
        }
    }

    /// The cache written as a JSON object, which `from_json` reads back as
    /// this cache.
    pub fn to_json(&self) -> (res: String)
        ensures
            read_cache_json(res@) == Some(self@),
    {
        let pairs = self.entries();
        match encode_cache_json(&pairs) {
            Some(text) => text,
            None => {
                proof {
                    assert(false);
                }
                String::new()
            },
        }
    }

    /// The stored pairs, one per key.
    pub fn entries(&self) -> (res: Vec<(String, String)>)
        ensures
            keys_distinct(pairs_view(res@)),
            pairs_map(pairs_view(res@)) == self@,
    {
        proof {
            use_type_invariant(self);
        }
        let mut res: Vec<(String, String)> = Vec::new();
        let mut i: usize = 0;
        while i < self.entries.len()
            invariant
                i <= self.entries@.len(),
                pairs_view(res@) == pairs_view(self.entries@).take(i as int),
            decreases self.entries@.len() - i,
        {
            let k = self.entries[i].0.clone();
            let v = self.entries[i].1.clone();
            let ghost before = pairs_view(res@);
            res.push((k, v));
            assert(pairs_view(res@) =~= before.push((k@, v@)));
            assert(pairs_view(self.entries@)[i as int] == (self.entries@[i as int].0@, self.entries@[i as int].1@));
            assert(pairs_view(res@) =~= pairs_view(self.entries@).take(i + 1));
            i = i + 1;
        }
        assert(pairs_view(self.entries@).take(i as int) =~= pairs_view(self.entries@));
        res
    }
}

proof fn lemma_distinct_len(es: Seq<(Seq<char>, Seq<char>)>)
    requires
        keys_distinct(es),
    ensures
        pairs_map(es).dom().finite(),
        pairs_map(es).len() == es.len(),
    decreases es.len(),
{
    if es.len() == 0 {
        assert(pairs_map(es).dom() =~= Set::<Seq<char>>::empty());
    } else {
        let init = es.drop_last();
        lemma_distinct_len(init);
        let k = es.last().0;
        assert(!pairs_map(init).dom().contains(k)) by {
            if pairs_map(init).dom().contains(k) {
                let j = choose|j: int| 0 <= j < init.len() && init[j].0 == k;
                assert(es[j].0 == es[es.len() - 1].0);
            }
        }
        assert(pairs_map(es).dom() =~= pairs_map(init).dom().insert(k)) by {
            assert forall|x: Seq<char>| pairs_map(es).dom().contains(x) implies pairs_map(
                init,
            ).dom().insert(k).contains(x) by {
                let j = choose|j: int| 0 <= j < es.len() && es[j].0 == x;
                if j < init.len() {
                    assert(init[j] == es[j]);
                }
            }
            assert forall|x: Seq<char>| pairs_map(init).dom().insert(k).contains(x) implies pairs_map(
                es,
            ).dom().contains(x) by {
                if x != k {
                    let j = choose|j: int| 0 <= j < init.len() && init[j].0 == x;
                    assert(es[j] == init[j]);
                } else {
                    assert(es[es.len() - 1].0 == k);
                }
            }
        }
    }
}

/// A value stored under a key is what a later read of that key gives, and
/// storing under one key leaves every other key as it was.
pub proof fn lemma_read_after_write(
    before: Map<Seq<char>, Seq<char>>,
    key: Seq<char>,
    value: Seq<char>,
    other: Seq<char>,
)
    ensures
        before.insert(key, value).contains_key(key),
        before.insert(key, value)[key] == value,
        other != key ==> before.insert(key, value).contains_key(other) == before.contains_key(
            other,
        ),
        other != key && before.contains_key(other) ==> before.insert(key, value)[other]
            == before[other],
{
}

/// Inserting pairs with distinct keys one after the other gives the map they
/// hold: what `entries` hands out, `from_pairs` gives back.
pub proof fn lemma_restore_after_save(es: Seq<(Seq<char>, Seq<char>)>)
    requires
        keys_distinct(es),
    ensures
        insert_all(es) == pairs_map(es),
    decreases es.len(),
{
    if es.len() == 0 {
        assert(pairs_map(es) =~= Map::<Seq<char>, Seq<char>>::empty());
    } else {
        let init = es.drop_last();
        let k = es.last().0;
        let v = es.last().1;
        assert(keys_distinct(init));
        lemma_restore_after_save(init);
        lemma_pairs_map_at(es, es.len() - 1);
        assert(pairs_map(es) =~= pairs_map(init).insert(k, v)) by {
            assert forall|x: Seq<char>| #[trigger] pairs_map(es).contains_key(x) == pairs_map(
                init,
            ).insert(k, v).contains_key(x) by {
                if x != k {
                    if pairs_map(es).contains_key(x) {
                        let j = choose|j: int| 0 <= j < es.len() && es[j].0 == x;
                        assert(j < init.len());
                        assert(init[j] == es[j]);
                    }
                    if pairs_map(init).contains_key(x) {
                        let j = choose|j: int| 0 <= j < init.len() && init[j].0 == x;
                        assert(es[j] == init[j]);
                    }
                }
            }
            assert forall|x: Seq<char>| #[trigger]
                pairs_map(es).contains_key(x) && x != k implies pairs_map(es)[x] == pairs_map(
                init,
            )[x] by {
                let j = choose|j: int| 0 <= j < es.len() && es[j].0 == x;
                assert(j < init.len());
                assert(init[j] == es[j]);
                lemma_pairs_map_at(es, j);
                lemma_pairs_map_at(init, j);
            }
        }
    }
}

/// What `to_json` writes, `from_json` reads back as the same cache: two
/// maps read from one text are equal.
pub proof fn lemma_json_restores_saved(
    saved: Map<Seq<char>, Seq<char>>,
    text: Seq<char>,
    restored: Map<Seq<char>, Seq<char>>,
)
    ensures
        read_cache_json(text) == Some(saved) && read_cache_json(text) == Some(restored)
            ==> restored == saved,
{
}

} // verus!
