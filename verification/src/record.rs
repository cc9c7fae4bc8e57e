//! A parsed log record and the key-value pairs it carries.

use vstd::prelude::*;
use vstd::utf8::*;
use vstd::string::*;
use crate::bytes::{bytes_eq, lemma_same_bytes_same_text, str_from_utf8, COLON};
use crate::error::ParseErrorKind;
use crate::level::Level;
use crate::number::{parse_u32, unsigned_of};
use crate::time::Timestamp;
use crate::value::{Value, ValueView};

verus! {

/// The map that a list of pairs stands for: a later pair replaces an
/// earlier one with the same key.
pub open spec fn map_of(pairs: Seq<(String, Value)>) -> Map<Seq<char>, ValueView>
    decreases pairs.len(),
{
    if pairs.len() == 0 {
        Map::empty()
    } else {
        map_of(pairs.drop_last()).insert(pairs.last().0@, pairs.last().1@)
    }
}

/// The place of the first pair with the key `key` among `pairs`, counted
/// from `from`, or the number of pairs where there is none.
pub open spec fn place_of(pairs: Seq<(String, Value)>, key: Seq<char>, from: int) -> int
    decreases pairs.len() - from,
{
    if from >= pairs.len() {
        pairs.len() as int
    } else if pairs[from].0@ == key {
        from
    } else {
        place_of(pairs, key, from + 1)
    }
}

/// `pairs` with `pair` in the place of the pair that has its key, or behind
/// all pairs where none has it.
pub open spec fn with_pair(pairs: Seq<(String, Value)>, pair: (String, Value)) -> Seq<
    (String, Value),
> {
    let place = place_of(pairs, pair.0@, 0);
    if 0 <= place < pairs.len() {
        pairs.update(place, pair)
    } else {
        pairs.push(pair)
    }
}

/// Whether no key occurs twice in `pairs`.
pub open spec fn distinct_keys(pairs: Seq<(String, Value)>) -> bool {
    forall|i: int, j: int|
        0 <= i < j < pairs.len() ==> (#[trigger] pairs[i]).0@ != (#[trigger] pairs[j]).0@
}

/// The keys of `map_of` are the keys of the pairs.
pub proof fn lemma_map_of_keys(pairs: Seq<(String, Value)>, key: Seq<char>)
    ensures
        map_of(pairs).contains_key(key) <==> exists|i: int|
            0 <= i < pairs.len() && (#[trigger] pairs[i]).0@ == key,
        map_of(pairs).dom().finite(),
    decreases pairs.len(),
{
    if pairs.len() > 0 {
        let t = pairs.drop_last();
        lemma_map_of_keys(t, key);
        if map_of(pairs).contains_key(key) {
            if pairs.last().0@ == key {
                assert(pairs[pairs.len() - 1].0@ == key);
            } else {
                let i = choose|i: int| 0 <= i < t.len() && (#[trigger] t[i]).0@ == key;
                assert(pairs[i].0@ == key);
            }
        }
        if exists|i: int| 0 <= i < pairs.len() && (#[trigger] pairs[i]).0@ == key {
            let i = choose|i: int| 0 <= i < pairs.len() && (#[trigger] pairs[i]).0@ == key;
            if i < t.len() {
                assert(t[i].0@ == key);
            }
        }
    }
}

/// With distinct keys, each pair is an entry of the map, and the map has as
/// many entries as there are pairs.
pub proof fn lemma_map_of_distinct(pairs: Seq<(String, Value)>, i: int)
    requires
        distinct_keys(pairs),
        0 <= i < pairs.len(),
    ensures
        map_of(pairs).contains_key(pairs[i].0@),
        map_of(pairs)[pairs[i].0@] == pairs[i].1@,
    decreases pairs.len(),
{
    let t = pairs.drop_last();
    if i < t.len() {
        assert(distinct_keys(t)) by {
            assert forall|a: int, b: int| 0 <= a < b < t.len() implies (#[trigger] t[a]).0@ != (
            #[trigger] t[b]).0@ by {
                assert(t[a] == pairs[a] && t[b] == pairs[b]);
            }
        }
        lemma_map_of_distinct(t, i);
        assert(t[i] == pairs[i]);
        assert(pairs[i].0@ != pairs[pairs.len() - 1].0@);
    }
}

/// With distinct keys, the map has as many entries as there are pairs.
pub proof fn lemma_map_of_len(pairs: Seq<(String, Value)>)
    requires
        distinct_keys(pairs),
    ensures
        map_of(pairs).dom().finite(),
        map_of(pairs).dom().len() == pairs.len(),
    decreases pairs.len(),
{
    if pairs.len() > 0 {
        let t = pairs.drop_last();
        assert(distinct_keys(t)) by {
            assert forall|a: int, b: int| 0 <= a < b < t.len() implies (#[trigger] t[a]).0@ != (
            #[trigger] t[b]).0@ by {
                assert(t[a] == pairs[a] && t[b] == pairs[b]);
            }
        }
        lemma_map_of_len(t);
        let key = pairs.last().0@;
        lemma_map_of_keys(t, key);
        if map_of(t).contains_key(key) {
            let i = choose|i: int| 0 <= i < t.len() && (#[trigger] t[i]).0@ == key;
            assert(t[i] == pairs[i]);
            assert(pairs[i].0@ != pairs[pairs.len() - 1].0@);
        }
        assert(map_of(pairs).dom() =~= map_of(t).dom().insert(key));
    } else {
        assert(map_of(pairs).dom() =~= Set::empty());
    }
}

/// Putting a pair in the place of one with the same key is inserting it
/// into the map, and keeps the keys distinct.
pub proof fn lemma_map_of_update(pairs: Seq<(String, Value)>, i: int, pair: (String, Value))
    requires
        distinct_keys(pairs),
        0 <= i < pairs.len(),
        pairs[i].0@ == pair.0@,
    ensures
        map_of(pairs.update(i, pair)) == map_of(pairs).insert(pair.0@, pair.1@),
        distinct_keys(pairs.update(i, pair)),
    decreases pairs.len(),
{
    let t = pairs.drop_last();
    let u = pairs.update(i, pair);
    assert(distinct_keys(u)) by {
        assert forall|a: int, b: int| 0 <= a < b < u.len() implies (#[trigger] u[a]).0@ != (
        #[trigger] u[b]).0@ by {
            assert(pairs[a].0@ != pairs[b].0@);
        }
    }
    if i == pairs.len() - 1 {
        assert(u.drop_last() =~= t);
        assert(map_of(u) =~= map_of(pairs).insert(pair.0@, pair.1@));
    } else {
        assert(distinct_keys(t)) by {
            assert forall|a: int, b: int| 0 <= a < b < t.len() implies (#[trigger] t[a]).0@ != (
            #[trigger] t[b]).0@ by {
                assert(t[a] == pairs[a] && t[b] == pairs[b]);
            }
        }
        assert(t[i] == pairs[i]);
        lemma_map_of_update(t, i, pair);
        assert(u.drop_last() =~= t.update(i, pair));
        assert(u.last() == pairs.last());
        assert(pairs[i].0@ != pairs[pairs.len() - 1].0@);
        assert(map_of(u) =~= map_of(pairs).insert(pair.0@, pair.1@));
    }
}

/// The key-value pairs of a record, in the order in which their keys were
/// first seen. No key occurs twice: a later value replaces an earlier one.
#[derive(Debug)]
pub struct KeyValues {
    pairs: Vec<(String, Value)>,
}

impl View for KeyValues {
    type V = Map<Seq<char>, ValueView>;

    closed spec fn view(&self) -> Map<Seq<char>, ValueView> {
        map_of(self.pairs@)
    }
}

impl KeyValues {
    #[verifier::type_invariant]
    spec fn keys_are_distinct(&self) -> bool {
        distinct_keys(self.pairs@)
    }

    /// The pairs, in the order in which their keys were first seen.
    pub closed spec fn pairs(&self) -> Seq<(String, Value)> {
        self.pairs@
    }

    /// No pairs.
    pub fn new() -> (r: KeyValues)
        ensures
            r@ == Map::<Seq<char>, ValueView>::empty(),
            r.pairs().len() == 0,
    {
        KeyValues { pairs: Vec::new() }
    }

    /// The number of pairs.
    pub fn len(&self) -> (r: usize)
        ensures
            r == self.pairs().len(),
            r == self@.dom().len(),
    {
        proof {
            use_type_invariant(self);
            lemma_map_of_len(self.pairs@);
        }
        self.pairs.len()
    }

    /// The position of `key` among the pairs.
    fn position(&self, key: &str) -> (r: Option<usize>)
        ensures
            match r {
                Some(i) => i < self.pairs@.len() && self.pairs@[i as int].0@ == key@ && i
                    == place_of(self.pairs@, key@, 0),
                None => place_of(self.pairs@, key@, 0) == self.pairs@.len() && forall|i: int|
                    0 <= i < self.pairs@.len() ==> (#[trigger] self.pairs@[i]).0@ != key@,
            },
    {
        let mut i: usize = 0;
        while i < self.pairs.len()
            invariant
                i <= self.pairs@.len(),
                place_of(self.pairs@, key@, 0) == place_of(self.pairs@, key@, i as int),
                forall|j: int| 0 <= j < i ==> (#[trigger] self.pairs@[j]).0@ != key@,
            decreases self.pairs@.len() - i,
        {
            proof {
                lemma_same_bytes_same_text(self.pairs@[i as int].0@, key@);
            }
            if bytes_eq(self.pairs[i].0.as_str().as_bytes(), key.as_bytes()) {
                return Some(i);
            }
            i += 1;
        }
        None
    }

    /// The value of `key`, if it has one.
    pub fn get(&self, key: &str) -> (r: Option<&Value>)
        ensures
            match r {
                Some(v) => self@.contains_key(key@) && v@ == self@[key@],
                None => !self@.contains_key(key@),
            },
    {
        proof {
            use_type_invariant(self);
            lemma_map_of_keys(self.pairs@, key@);
        }
        match self.position(key) {
            Some(i) => {
                proof {
                    lemma_map_of_distinct(self.pairs@, i as int);
                }
                let pair = &self.pairs[i];
                assert(*pair == self.pairs@[i as int]);
                assert(pair.0@ == key@);
                assert(map_of(self.pairs@)[key@] == pair.1@);
                Some(&pair.1)
            },
            None => None,
        }
    }

    /// The pair at place `index`, counted from 0 in the order in which the
    /// keys were first seen.
    pub fn entry(&self, index: usize) -> (r: Option<(&String, &Value)>)
        ensures
            match r {
                Some((k, v)) => index < self.pairs().len() && (*k, *v) == self.pairs()[index as int]
                    && self@.contains_key(k@) && self@[k@] == v@,
                None => index >= self.pairs().len(),
            },
    {
        if index < self.pairs.len() {
            proof {
                use_type_invariant(self);
                lemma_map_of_distinct(self.pairs@, index as int);
            }
            Some((&self.pairs[index].0, &self.pairs[index].1))
        } else {
            None
        }
    }

    /// Gives `key` the value `value`, in place of the value it had, if any.
    /// A key that had none joins the pairs as the last.
    pub fn insert(&mut self, key: String, value: Value)
        ensures
            final(self)@ == old(self)@.insert(key@, value@),
            final(self).pairs() == with_pair(old(self).pairs(), (key, value)),
    {
        proof {
            use_type_invariant(&*self);
        }
        let found = self.position(key.as_str());
        let mut taken = KeyValues::new();
        core::mem::swap(self, &mut taken);
        let mut pairs = taken.pairs;
        assert(pairs@ == old(self).pairs@);
        match found {
            Some(i) => {
                proof {
                    lemma_map_of_update(pairs@, i as int, (key, value));
                }
                pairs.set(i, (key, value));
            },
            None => {
                proof {
                    let p = pairs@.push((key, value));
                    assert(p.drop_last() =~= pairs@);
                    assert forall|a: int, b: int| 0 <= a < b < p.len() implies (#[trigger] p[a]).0@
                        != (#[trigger] p[b]).0@ by {
                        if b < pairs@.len() {
                            assert(pairs@[a].0@ != pairs@[b].0@);
                        } else {
                            assert(pairs@[a].0@ != key@);
                        }
                    }
                }
                pairs.push((key, value));
            },
        }
        *self = KeyValues { pairs };
    }
}

/// A parsed log record.
#[derive(Debug)]
pub struct Record {
    /// Timestamp *in UTC* (key `ts`).
    pub timestamp: Option<Timestamp>,
    /// Log level (key `lvl`).
    pub level: Level,
    /// Log message (key `msg`).
    pub msg: String,
    /// Log target (key `target`).
    pub target: String,
    /// Module that logged the message (key `module`).
    pub module: Option<String>,
    /// File and line number from where the message originated (key `file`).
    pub file: Option<(String, u32)>,
    /// Additional key value pairs.
    pub key_values: KeyValues,
}

/// What a [`Record`] holds, with text as sequences of characters and the
/// key-value pairs as a map.
pub struct RecordView {
    pub timestamp: Option<Timestamp>,
    pub level: Level,
    pub msg: Seq<char>,
    pub target: Seq<char>,
    pub module: Option<Seq<char>>,
    pub file: Option<(Seq<char>, u32)>,
    pub key_values: Map<Seq<char>, ValueView>,
}

impl View for Record {
    type V = RecordView;

    open spec fn view(&self) -> RecordView {
        RecordView {
            timestamp: self.timestamp,
            level: self.level,
            msg: self.msg@,
            target: self.target@,
            module: match self.module {
                Some(module) => Some(module@),
                None => None,
            },
            file: match self.file {
                Some((file, line)) => Some((file@, line)),
                None => None,
            },
            key_values: self.key_values@,
        }
    }
}

/// The record in which no key has a value yet.
pub open spec fn empty_record() -> RecordView {
    RecordView {
        timestamp: None,
        level: Level::Info,
        msg: Seq::empty(),
        target: Seq::empty(),
        module: None,
        file: None,
        key_values: Map::empty(),
    }
}

impl Record {
    /// A record in which no key has a value yet. Its level is `Info`.
    pub fn empty() -> (r: Record)
        ensures
            r@ == empty_record(),
    {
        Record {
            timestamp: None,
            level: Level::Info,
            msg: String::new(),
            target: String::new(),
            module: None,
            file: None,
            key_values: KeyValues::new(),
        }
    }
}

/// Reads a value as text.
pub fn parse_string<'a>(value: &'a [u8]) -> (r: Result<&'a str, ParseErrorKind>)
    ensures
        match r {
            Ok(text) => valid_utf8(value@) && text@ == decode_utf8(value@),
            Err(kind) => !valid_utf8(value@) && kind == ParseErrorKind::InvalidValue,
        },
{
    match str_from_utf8(value) {
        Some(text) => Ok(text),
        None => Err(ParseErrorKind::InvalidValue),
    }
}

/// The index of the last `:` in `s[..n]`, or -1 where it holds none.
pub open spec fn last_colon(s: Seq<u8>, n: int) -> int
    decreases n,
{
    if n <= 0 {
        -1
    } else if s[n - 1] == COLON {
        n - 1
    } else {
        last_colon(s, n - 1)
    }
}

/// The file and the line number that `value` names: the text before its
/// last `:`, which may be empty, and the unsigned integer after it.
pub open spec fn file_of(value: Seq<u8>) -> Option<(Seq<char>, u32)> {
    let at = last_colon(value, value.len() as int);
    if at < 0 || !valid_utf8(value.take(at)) {
        None
    } else {
        match unsigned_of(value.skip(at + 1)) {
            Some(line) if line <= u32::MAX => Some((decode_utf8(value.take(at)), line as u32)),
            _ => None,
        }
    }
}

/// Parse file value, format: `path/to/file:line`, e.g.
/// `examples/simple.rs:51`.
pub fn parse_file<'a>(value: &'a [u8]) -> (r: Result<(&'a str, u32), ParseErrorKind>)
    ensures
        match file_of(value@) {
            Some((file, line)) => r matches Ok((f, l)) && f@ == file && l == line,
            None => r == Err::<(&str, u32), ParseErrorKind>(ParseErrorKind::InvalidFile),
        },
{
    let mut n: usize = value.len();
    while n > 0 && value[n - 1] != COLON
        invariant
            n <= value@.len(),
            last_colon(value@, value@.len() as int) == last_colon(value@, n as int),
        decreases n,
    {
        n -= 1;
    }
    if n == 0 {
        return Err(ParseErrorKind::InvalidFile);
    }
    let at = n - 1;
    match str_from_utf8(&value[0..at]) {
        Some(file) => match parse_u32(&value[n..value.len()]) {
            Some(line) => Ok((file, line)),
            None => Err(ParseErrorKind::InvalidFile),
        },
        None => Err(ParseErrorKind::InvalidFile),
    }
}

} // verus!
