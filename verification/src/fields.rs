//! The flat string-to-string messages that requests and responses carry,
//! and their JSON text.

use vstd::prelude::*;
use std::collections::BTreeMap;
use rustc_serialize::json;

verus! {

/// A key occurs among the pairs.
pub open spec fn has_key(ps: Seq<(Seq<char>, Seq<char>)>, k: Seq<char>) -> bool {
    exists|i: int| 0 <= i < ps.len() && (#[trigger] ps[i]).0 == k
}

/// No key occurs twice among the pairs.
pub open spec fn keys_distinct(ps: Seq<(Seq<char>, Seq<char>)>) -> bool {
    forall|i: int, j: int|
        0 <= i < ps.len() && 0 <= j < ps.len() && i != j ==> (#[trigger] ps[i]).0 != (#[trigger] ps[j]).0
}

/// The map that pairs with distinct keys stand for.
pub open spec fn map_of(ps: Seq<(Seq<char>, Seq<char>)>) -> Map<Seq<char>, Seq<char>> {
    Map::new(
        |k: Seq<char>| has_key(ps, k),
        |k: Seq<char>| ps[choose|i: int| 0 <= i < ps.len() && (#[trigger] ps[i]).0 == k].1,
    )
}

/// The map that inserting the pairs one after another, into an empty map,
/// leaves: a later pair wins over an earlier one with the same key.
pub open spec fn map_from_pairs(ps: Seq<(Seq<char>, Seq<char>)>) -> Map<Seq<char>, Seq<char>>
    decreases ps.len(),
{
    if ps.len() == 0 {
        Map::empty()
    } else {
        map_from_pairs(ps.drop_last()).insert(ps.last().0, ps.last().1)
    }
}

pub proof fn lemma_map_of_index(ps: Seq<(Seq<char>, Seq<char>)>, i: int)
    requires
        keys_distinct(ps),
        0 <= i < ps.len(),
    ensures
        map_of(ps).contains_key(ps[i].0),
        map_of(ps)[ps[i].0] == ps[i].1,
{
    let k = ps[i].0;
    assert(has_key(ps, k));
    let j = choose|j: int| 0 <= j < ps.len() && (#[trigger] ps[j]).0 == k;
    assert(0 <= j < ps.len() && ps[j].0 == k);
    if j != i {
        assert(ps[i].0 != ps[j].0);
    }
}

/// A message: string keys, each with one string value, as a request body or
/// a response holds them.
#[derive(Debug, Clone)]
pub struct MessageMap {
    entries: Vec<(String, String)>,
}

impl MessageMap {
    /// The pairs in the order they are stored.
    pub closed spec fn pairs(&self) -> Seq<(Seq<char>, Seq<char>)> {
        self.entries@.map_values(|e: (String, String)| (e.0@, e.1@))
    }

    /// No key is stored twice.
    pub open spec fn wf(&self) -> bool {
        keys_distinct(self.pairs())
    }

    pub fn new() -> (r: MessageMap)
        ensures
            r.wf(),
            r@ == Map::<Seq<char>, Seq<char>>::empty(),
            r.pairs() == Seq::<(Seq<char>, Seq<char>)>::empty(),
    {
        let r = MessageMap { entries: Vec::new() };
        assert(r.pairs() =~= Seq::<(Seq<char>, Seq<char>)>::empty());
        assert(r@ =~= Map::<Seq<char>, Seq<char>>::empty());
        r
    }

    /// The index of `key` among the entries.
    fn find(&self, key: &String) -> (r: Option<usize>)
        requires
            self.wf(),
        ensures
            r is None <==> !self@.contains_key(key@),
            r matches Some(i) ==> i < self.pairs().len() && self.pairs()[i as int].0 == key@,
    {
        let n = self.entries.len();
        let mut i: usize = 0;
        while i < n
            invariant
                n == self.entries@.len(),
                i <= n,
                forall|j: int| 0 <= j < i ==> (#[trigger] self.pairs()[j]).0 != key@,
            decreases n - i,
        {
            if self.entries[i].0 == *key {
                assert(self.pairs()[i as int].0 == key@);
                return Some(i);
            }
            assert(self.pairs()[i as int].0 != key@);
            i = i + 1;
        }
        assert(!has_key(self.pairs(), key@));
        None
    }

    /// Whether `key` has a value.
    pub fn contains_key(&self, key: &str) -> (r: bool)
        requires
            self.wf(),
        ensures
            r == self@.contains_key(key@),
    {
        let k = key.to_owned();
        self.find(&k).is_some()
    }

    /// The value of `key`, if it has one.
    pub fn get(&self, key: &str) -> (r: Option<&String>)
        requires
            self.wf(),
        ensures
            r is None <==> !self@.contains_key(key@),
            r matches Some(v) ==> v@ == self@[key@],
    {
        let k = key.to_owned();
        match self.find(&k) {
            None => None,
            Some(i) => {
                proof {
                    lemma_map_of_index(self.pairs(), i as int);
                }
                Some(&self.entries[i].1)
            },
        }
    }

    /// Gives `key` the value `value`, replacing the value it had.
    pub fn insert(&mut self, key: String, value: String)
        requires
            old(self).wf(),
        ensures
            final(self).wf(),
            final(self)@ == old(self)@.insert(key@, value@),
    {
        let ghost kv = key@;
        let ghost vv = value@;
        let ghost before = self.pairs();
        match self.find(&key) {
            Some(i) => {
                self.entries.set(i, (key, value));
                assert(self.pairs() =~= before.update(i as int, (kv, vv)));
                proof {
                    let after = self.pairs();
                    assert(keys_distinct(after));
                    assert forall|k: Seq<char>| #[trigger] has_key(after, k) == has_key(before, k)
                        by {
                        if has_key(before, k) {
                            let j = choose|j: int| 0 <= j < before.len() && (#[trigger] before[j]).0 == k;
                            assert(after[j].0 == k);
                        }
                        if has_key(after, k) {
                            let j = choose|j: int| 0 <= j < after.len() && (#[trigger] after[j]).0 == k;
                            assert(before[j].0 == k);
                        }
                    }
                    assert forall|k: Seq<char>| #[trigger] map_of(after).contains_key(k) implies
                        map_of(after)[k] == map_of(before).insert(kv, vv)[k] by {
                        let j = choose|j: int| 0 <= j < after.len() && (#[trigger] after[j]).0 == k;
                        lemma_map_of_index(after, j);
                        if j != i {
                            lemma_map_of_index(before, j);
                        }
                    }
                    assert(map_of(after) =~= map_of(before).insert(kv, vv));
                }
            },
            None => {
                self.entries.push((key, value));
                assert(self.pairs() =~= before.push((kv, vv)));
                proof {
                    let after = self.pairs();
                    assert(keys_distinct(after)) by {
                        assert forall|i: int, j: int|
                            0 <= i < after.len() && 0 <= j < after.len() && i != j implies
                            (#[trigger] after[i]).0 != (#[trigger] after[j]).0 by {
                            if i == before.len() as int {
                                assert(before[j] == after[j]);
                            } else if j == before.len() as int {
                                assert(before[i] == after[i]);
                            }
                        }
                    }
                    assert forall|k: Seq<char>| #[trigger] has_key(after, k) == (has_key(before, k) || k == kv)
                        by {
                        if has_key(before, k) {
                            let j = choose|j: int| 0 <= j < before.len() && (#[trigger] before[j]).0 == k;
                            assert(after[j].0 == k);
                        }
                        if k == kv {
                            assert(after[before.len() as int].0 == k);
                        }
                        if has_key(after, k) {
                            let j = choose|j: int| 0 <= j < after.len() && (#[trigger] after[j]).0 == k;
                            if j < before.len() {
                                assert(before[j].0 == k);
                            }
                        }
                    }
                    assert forall|k: Seq<char>| #[trigger] map_of(after).contains_key(k) implies
                        map_of(after)[k] == map_of(before).insert(kv, vv)[k] by {
                        let j = choose|j: int| 0 <= j < after.len() && (#[trigger] after[j]).0 == k;
                        lemma_map_of_index(after, j);
                        if j < before.len() {
                            lemma_map_of_index(before, j);
                        }
                    }
                    assert(map_of(after) =~= map_of(before).insert(kv, vv));
                }
            },
        }
    }
}

impl View for MessageMap {
    type V = Map<Seq<char>, Seq<char>>;

    open spec fn view(&self) -> Map<Seq<char>, Seq<char>> {
        map_of(self.pairs())
    }
}


/// The string pairs of the JSON object that `text` holds, in key order, as
/// `rustc_serialize::json::decode` reads them into a map of strings;
/// `None` where `text` is not such an object.
pub uninterp spec fn json_object_pairs(text: Seq<char>) -> Option<Seq<(Seq<char>, Seq<char>)>>;

/// The JSON text that `rustc_serialize::json::encode` writes for the map of
/// strings that the pairs make.
pub uninterp spec fn json_object_text(pairs: Seq<(Seq<char>, Seq<char>)>) -> Seq<char>;

/// Calls `rustc_serialize::json::decode` to read `text` as a JSON object
/// whose values are all strings. Its result is named, not described: the
/// contract claims only that it is a function of `text`.
#[verifier::external_body]
fn decode_json_object(text: &str) -> (r: Option<Vec<(String, String)>>)
    ensures
        match r {
            None => json_object_pairs(text@) is None,
            Some(v) => json_object_pairs(text@) == Some(
                v@.map_values(|e: (String, String)| (e.0@, e.1@)),
            ),
        },
{
    match json::decode::<BTreeMap<String, String>>(text) {
        Ok(m) => Some(m.into_iter().collect()),
        Err(_) => None,
    }
}

/// Calls `rustc_serialize::json::encode` on the map of strings that the
/// pairs make (a later pair wins over an earlier one with the same key).
/// Encoding a map with string keys cannot fail. Beyond naming the text as a
/// function of the pairs, the contract claims what the crate documents as
/// the purpose of `encode` and `decode`: decoding the text gives back the
/// same map (the encoder escapes `"`, `\` and every control character,
/// which the decoder reads back). The order of the decoded pairs is not
/// claimed.
#[verifier::external_body]
fn encode_json_object(pairs: &Vec<(String, String)>) -> (r: String)
    ensures
        r@ == json_object_text(pairs@.map_values(|e: (String, String)| (e.0@, e.1@))),
        json_object_pairs(r@) is Some,
        map_from_pairs(json_object_pairs(r@)->Some_0) == map_from_pairs(
            pairs@.map_values(|e: (String, String)| (e.0@, e.1@)),
        ),
{
    let m: BTreeMap<String, String> = pairs.iter().cloned().collect();
    match json::encode(&m) {
        Ok(s) => s,
        Err(_) => String::new(),
    }
}

/// The message that JSON text stands for: the object's pairs, or the empty
/// message where the text is not a JSON object of strings.
pub open spec fn json_message(text: Seq<char>) -> Map<Seq<char>, Seq<char>> {
    match json_object_pairs(text) {
        Some(ps) => map_from_pairs(ps),
        None => Map::empty(),
    }
}

/// The message that inserting the pairs one after another, into an empty
/// message, leaves: a later pair wins over an earlier one with the same key.
pub fn message_from_pairs(pairs: Vec<(String, String)>) -> (r: MessageMap)
    ensures
        r.wf(),
        r@ == map_from_pairs(pairs@.map_values(|e: (String, String)| (e.0@, e.1@))),
{
    let mut r = MessageMap::new();
    let ghost ps = pairs@.map_values(|e: (String, String)| (e.0@, e.1@));
    let n = pairs.len();
    let mut i: usize = 0;
    while i < n
        invariant
            n == pairs@.len(),
            i <= n,
            ps == pairs@.map_values(|e: (String, String)| (e.0@, e.1@)),
            r.wf(),
            r@ == map_from_pairs(ps.take(i as int)),
        decreases n - i,
    {
        let k = pairs[i].0.clone();
        let val = pairs[i].1.clone();
        r.insert(k, val);
        assert(ps.take(i + 1).drop_last() =~= ps.take(i as int));
        i = i + 1;
    }
    assert(ps.take(n as int) =~= ps);
    r
}

/// Reads a message from JSON text; text that is not a JSON object of
/// strings gives the empty message.
pub fn from_json(json_str: &str) -> (r: MessageMap)
    ensures
        r.wf(),
        r@ == json_message(json_str@),
{
    match decode_json_object(json_str) {
        None => MessageMap::new(),
        Some(v) => message_from_pairs(v),
    }
}

/// Pairs with distinct keys stand for the map that inserting them one after
/// another leaves.
pub proof fn lemma_map_from_distinct_pairs(ps: Seq<(Seq<char>, Seq<char>)>)
    requires
        keys_distinct(ps),
    ensures
        map_from_pairs(ps) == map_of(ps),
    decreases ps.len(),
{
    if ps.len() == 0 {
        assert(map_of(ps) =~= Map::<Seq<char>, Seq<char>>::empty());
    } else {
        let init = ps.drop_last();
        let n = ps.len() - 1;
        let last = ps[n];
        assert(keys_distinct(init)) by {
            assert forall|i: int, j: int|
                0 <= i < init.len() && 0 <= j < init.len() && i != j implies
                (#[trigger] init[i]).0 != (#[trigger] init[j]).0 by {
                assert(init[i] == ps[i] && init[j] == ps[j]);
            }
        }
        lemma_map_from_distinct_pairs(init);
        let want = map_of(init).insert(last.0, last.1);
        assert forall|k: Seq<char>| #[trigger] map_of(ps).contains_key(k) <==> want.contains_key(k) by {
            if has_key(ps, k) {
                let j = choose|j: int| 0 <= j < ps.len() && (#[trigger] ps[j]).0 == k;
                if j < n {
                    assert(init[j] == ps[j]);
                }
            }
            if has_key(init, k) {
                let j = choose|j: int| 0 <= j < init.len() && (#[trigger] init[j]).0 == k;
                assert(ps[j] == init[j]);
            }
            if k == last.0 {
                assert(ps[n].0 == k);
            }
        }
        assert forall|k: Seq<char>| #[trigger] map_of(ps).contains_key(k) implies map_of(ps)[k]
            == want[k] by {
            let j = choose|j: int| 0 <= j < ps.len() && (#[trigger] ps[j]).0 == k;
            lemma_map_of_index(ps, j);
            if j < n {
                assert(init[j] == ps[j]);
                lemma_map_of_index(init, j);
                assert(ps[j].0 != ps[n].0);
            }
        }
        assert(map_of(ps) =~= want);
    }
}

impl MessageMap {
    /// The message as JSON text.
    ///
    /// Reading the text back with `from_json` gives this message again.
    pub fn to_json(&self) -> (r: String)
        requires
            self.wf(),
        ensures
            r@ == json_object_text(self.pairs()),
            json_message(r@) == self@,
    {
        let r = encode_json_object(&self.entries);
        proof {
            lemma_map_from_distinct_pairs(self.pairs());
        }
        r
    }
}

} // verus!
