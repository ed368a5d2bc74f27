//! A lenient reader of flat `key: value` objects into a string map.
use vstd::prelude::*;
use crate::text::{
    chars_eq, chars_of, filter_chars, is_alphanumeric, spec_is_alphanumeric, split_chars, split_on,
    string_from, views,
};

verus! {

/// The map that a sequence of key/value pairs denotes when the pairs are
/// entered in order, a later pair replacing an earlier one with its key.
pub open spec fn entries_map(es: Seq<(String, String)>) -> Map<Seq<char>, Seq<char>>
    decreases es.len(),
{
    if es.len() == 0 {
        Map::empty()
    } else {
        entries_map(es.drop_last()).insert(es.last().0@, es.last().1@)
    }
}

/// No two pairs share a key.
pub open spec fn distinct_keys(es: Seq<(String, String)>) -> bool {
    forall|i: int, j: int|
        0 <= i < es.len() && 0 <= j < es.len() && i != j ==> es[i].0@ != es[j].0@
}

/// The keys of `entries_map(es)` are exactly the keys of the pairs.
proof fn lemma_entries_map_dom(es: Seq<(String, String)>, k: Seq<char>)
    ensures
        entries_map(es).dom().contains(k) <==> exists|i: int| 0 <= i < es.len() && es[i].0@ == k,
    decreases es.len(),
{
    if es.len() > 0 {
        lemma_entries_map_dom(es.drop_last(), k);
        if entries_map(es).dom().contains(k) && k != es.last().0@ {
            let i = choose|i: int| 0 <= i < es.drop_last().len() && es.drop_last()[i].0@ == k;
            assert(es[i] == es.drop_last()[i]);
        }
        if exists|i: int| 0 <= i < es.len() && es[i].0@ == k {
            let i = choose|i: int| 0 <= i < es.len() && es[i].0@ == k;
            if i < es.len() - 1 {
                assert(es.drop_last()[i] == es[i]);
            }
        }
    }
}

/// With distinct keys, the map gives each pair's value for its key.
proof fn lemma_entries_map_value(es: Seq<(String, String)>, i: int)
    requires
        distinct_keys(es),
        0 <= i < es.len(),
    ensures
        entries_map(es).dom().contains(es[i].0@),
        entries_map(es)[es[i].0@] == es[i].1@,
    decreases es.len(),
{
    if i < es.len() - 1 {
        assert(es.drop_last()[i] == es[i]);
        assert(distinct_keys(es.drop_last())) by {
            assert forall|a: int, b: int|
                0 <= a < es.drop_last().len() && 0 <= b < es.drop_last().len() && a != b implies
                es.drop_last()[a].0@ != es.drop_last()[b].0@ by {
                assert(es.drop_last()[a] == es[a]);
                assert(es.drop_last()[b] == es[b]);
            }
        }
        lemma_entries_map_value(es.drop_last(), i);
    }
}

/// Replacing the pair with key `k` replaces the value of `k` in the map.
proof fn lemma_entries_map_update(es: Seq<(String, String)>, j: int, e: (String, String))
    requires
        distinct_keys(es),
        0 <= j < es.len(),
        es[j].0@ == e.0@,
    ensures
        entries_map(es.update(j, e)) == entries_map(es).insert(e.0@, e.1@),
    decreases es.len(),
{
    let es2 = es.update(j, e);
    if j == es.len() - 1 {
        assert(es2.drop_last() =~= es.drop_last());
        lemma_entries_map_dom(es.drop_last(), e.0@);
        assert(entries_map(es2) =~= entries_map(es).insert(e.0@, e.1@));
    } else {
        assert(es2.drop_last() =~= es.drop_last().update(j, e));
        assert(distinct_keys(es.drop_last())) by {
            assert forall|a: int, b: int|
                0 <= a < es.drop_last().len() && 0 <= b < es.drop_last().len() && a != b implies
                es.drop_last()[a].0@ != es.drop_last()[b].0@ by {
                assert(es.drop_last()[a] == es[a]);
                assert(es.drop_last()[b] == es[b]);
            }
        }
        lemma_entries_map_update(es.drop_last(), j, e);
        assert(es[es.len() - 1].0@ != es[j].0@);
        assert(entries_map(es2) =~= entries_map(es).insert(e.0@, e.1@));
    }
}

/// A map from strings to strings, kept as a list of pairs with distinct keys.
pub struct JsonMap {
    entries: Vec<(String, String)>,
}

impl JsonMap {
    #[verifier::type_invariant]
    spec fn keys_are_distinct(&self) -> bool {
        distinct_keys(self.entries@)
    }

    /// The map's contents.
    pub closed spec fn view(&self) -> Map<Seq<char>, Seq<char>> {
        entries_map(self.entries@)
    }

    /// An empty map.
    pub fn new() -> (m: JsonMap)
        ensures
            m.view() == Map::<Seq<char>, Seq<char>>::empty(),
    {
        JsonMap { entries: Vec::new() }
    }

    /// Sets the value of `key` to `value`, replacing any earlier value.
    pub fn insert(&mut self, key: String, value: String)
        ensures
            final(self).view() == old(self).view().insert(key@, value@),
    {
        proof {
            use_type_invariant(&*self);
        }
        let mut i: usize = 0;
        while i < self.entries.len()
            invariant
                i <= self.entries.len(),
                distinct_keys(self.entries@),
                self.entries@ == old(self).entries@,
                forall|j: int| 0 <= j < i ==> self.entries@[j].0@ != key@,
            decreases self.entries.len() - i,
        {
            if self.entries[i].0 == key {
                let ghost es = self.entries@;
                proof {
                    lemma_entries_map_update(es, i as int, (key, value));
                }
                let mut entries: Vec<(String, String)> = Vec::new();
                std::mem::swap(&mut entries, &mut self.entries);
                entries.set(i, (key, value));
                assert(distinct_keys(entries@)) by {
                    assert forall|a: int, b: int|
                        0 <= a < entries@.len() && 0 <= b < entries@.len() && a != b implies
                        entries@[a].0@ != entries@[b].0@ by {
                        if a != i && b != i {
                            assert(entries@[a] == es[a]);
                            assert(entries@[b] == es[b]);
                        } else if a == i {
                            assert(entries@[b] == es[b]);
                        } else {
                            assert(entries@[a] == es[a]);
                        }
                    }
                }
                self.entries = entries;
                return ;
            }
            i = i + 1;
        }
        let ghost es = self.entries@;
        let mut entries: Vec<(String, String)> = Vec::new();
                std::mem::swap(&mut entries, &mut self.entries);
        entries.push((key, value));
        assert(entries@.drop_last() =~= es);
        assert(distinct_keys(entries@)) by {
            assert forall|a: int, b: int|
                0 <= a < entries@.len() && 0 <= b < entries@.len() && a != b implies entries@[a].0@
                    != entries@[b].0@ by {
                if a < es.len() {
                    assert(entries@[a] == es[a]);
                }
                if b < es.len() {
                    assert(entries@[b] == es[b]);
                }
            }
        }
        self.entries = entries;
    }

    /// The value of `key`, if the map has one.
    pub fn get(&self, key: &str) -> (r: Option<&String>)
        ensures
            match r {
                Some(v) => self.view().dom().contains(key@) && v@ == self.view()[key@],
                None => !self.view().dom().contains(key@),
            },
    {
        proof {
            use_type_invariant(self);
        }
        let k = chars_of(key);
        let mut i: usize = 0;
        while i < self.entries.len()
            invariant
                i <= self.entries.len(),
                distinct_keys(self.entries@),
                k@ == key@,
                forall|j: int| 0 <= j < i ==> self.entries@[j].0@ != key@,
            decreases self.entries.len() - i,
        {
            let ek = chars_of(self.entries[i].0.as_str());
            if chars_eq(&ek, &k) {
                proof {
                    lemma_entries_map_value(self.entries@, i as int);
                }
                return Some(&self.entries[i].1);
            }
            i = i + 1;
        }
        proof {
            lemma_entries_map_dom(self.entries@, key@);
        }
        None
    }

    /// Whether the map has no key.
    pub fn is_empty(&self) -> (r: bool)
        ensures
            r == (self.view() == Map::<Seq<char>, Seq<char>>::empty()),
    {
        if self.entries.len() == 0 {
            assert(self.view() =~= Map::<Seq<char>, Seq<char>>::empty());
            true
        } else {
            proof {
                lemma_entries_map_dom(self.entries@, self.entries@[0].0@);
            }
            assert(self.view().dom().contains(self.entries@[0].0@));
            false
        }
    }
}


/// The characters kept by the reader: alphanumeric ones, `_`, `,` and `:`.
pub open spec fn is_json_char(c: char) -> bool {
    spec_is_alphanumeric(c) || c == '_' || c == ',' || c == ':'
}

/// The map denoted by a list of `key:value` pieces, read in order: a piece
/// with fewer than two `:`-separated parts is skipped, otherwise its first
/// part is the key and its last part the value, replacing earlier values.
pub open spec fn json_fold(pairs: Seq<Seq<char>>) -> Map<Seq<char>, Seq<char>>
    decreases pairs.len(),
{
    if pairs.len() == 0 {
        Map::empty()
    } else {
        let m = json_fold(pairs.drop_last());
        let parts = split_on(pairs.last(), ':');
        if parts.len() < 2 {
            m
        } else {
            m.insert(parts[0], parts.last())
        }
    }
}

/// The map read from `s`: every character but alphanumerics, `_`, `,` and
/// `:` is dropped, the rest is cut at `,` into `key:value` pieces.
pub open spec fn json_map(s: Seq<char>) -> Map<Seq<char>, Seq<char>> {
    json_fold(split_on(filter_chars(s, |c: char| is_json_char(c)), ','))
}

/// The characters of `s` kept by the reader.
fn json_chars(s: &Vec<char>) -> (r: Vec<char>)
    ensures
        r@ == filter_chars(s@, |c: char| is_json_char(c)),
{
    let mut r: Vec<char> = Vec::new();
    let mut i: usize = 0;
    assert(s@.take(0) =~= Seq::<char>::empty());
    while i < s.len()
        invariant
            i <= s.len(),
            r@ == filter_chars(s@.take(i as int), |c: char| is_json_char(c)),
        decreases s.len() - i,
    {
        assert(s@.take(i + 1).drop_last() =~= s@.take(i as int));
        let c = s[i];
        if is_alphanumeric(c) || c == '_' || c == ',' || c == ':' {
            r.push(c);
        }
        i = i + 1;
    }
    assert(s@.take(s@.len() as int) =~= s@);
    r
}

/// Reads a flat object such as `{"conn_id": "ab12", "hashid_sec": "ff"}`
/// into a map from keys to values.
pub fn map_from_json(json_serial: String) -> (m: JsonMap)
    ensures
        m.view() == json_map(json_serial@),
{
    let mut result = JsonMap::new();
    let chars = chars_of(json_serial.as_str());
    let kept = json_chars(&chars);
    let pairs = split_chars(&kept, ',');
    let ghost all = views(pairs@);
    let mut i: usize = 0;
    assert(all.take(0) =~= Seq::<Seq<char>>::empty());
    while i < pairs.len()
        invariant
            i <= pairs.len(),
            all == views(pairs@),
            result.view() == json_fold(all.take(i as int)),
        decreases pairs.len() - i,
    {
        assert(all.take(i + 1).drop_last() =~= all.take(i as int));
        assert(all[i as int] == pairs@[i as int]@);
        let parts = split_chars(&pairs[i], ':');
        let n = parts.len();
        if n >= 2 {
            assert(views(parts@)[0] == parts@[0]@);
            assert(views(parts@)[n - 1] == parts@[n - 1]@);
            let key = string_from(&parts[0]);
            let value = string_from(&parts[n - 1]);
            result.insert(key, value);
        }
        i = i + 1;
    }
    assert(all.take(all.len() as int) =~= all);
    result
}

} // verus!
