//! The property list: a mapping from keys to values, together with loading
//! it from lines of text and writing it out as such.

use vstd::prelude::*;
use crate::escape::{encode_chars, encode_spec};
use crate::lines::{concat_lines, join_lines, split_lines, split_lines_spec};
use crate::listing::{
    distinct_keys, entries_map, has_key, lemma_entries_map_keys, lemma_entries_map_len,
    lemma_entries_map_update, lemma_entries_map_value, lemma_key_index, lemma_put,
    lemma_without, put, without, Listing,
};
use crate::parse::{
    entry_key, entry_value, feed_line, logical_lines_spec, parse_entry, pending_after,
};
use crate::roundtrip::{
    lemma_store_load, lemma_store_load_lines, lemma_store_load_order, lemma_store_split,
};

verus! {

/// The mapping after the logical lines `logical` have been entered into `m`,
/// one after the other.
pub open spec fn apply_lines(m: Map<Seq<char>, Seq<char>>, logical: Seq<Seq<char>>) -> Map<
    Seq<char>,
    Seq<char>,
>
    decreases logical.len(),
{
    if logical.len() == 0 {
        m
    } else {
        apply_lines(m, logical.drop_last()).insert(
            entry_key(logical.last()),
            entry_value(logical.last()),
        )
    }
}

/// The entries after the logical lines `logical` have been entered into `e`,
/// one after the other.
pub open spec fn put_lines(e: Listing, logical: Seq<Seq<char>>) -> Listing
    decreases logical.len(),
{
    if logical.len() == 0 {
        e
    } else {
        put(
            put_lines(e, logical.drop_last()),
            entry_key(logical.last()),
            entry_value(logical.last()),
        )
    }
}

/// Entering lines into the list is entering them into the mapping, and
/// leaves no key twice.
pub proof fn lemma_put_lines(e: Listing, logical: Seq<Seq<char>>)
    requires
        distinct_keys(e),
    ensures
        distinct_keys(put_lines(e, logical)),
        entries_map(put_lines(e, logical)) == apply_lines(entries_map(e), logical),
    decreases logical.len(),
{
    if logical.len() > 0 {
        lemma_put_lines(e, logical.drop_last());
        lemma_put(
            put_lines(e, logical.drop_last()),
            entry_key(logical.last()),
            entry_value(logical.last()),
        );
    }
}

/// The mapping after the physical lines `lines` have been loaded into `m`.
pub open spec fn load_lines_spec(m: Map<Seq<char>, Seq<char>>, lines: Seq<Seq<char>>) -> Map<
    Seq<char>,
    Seq<char>,
> {
    apply_lines(m, logical_lines_spec(lines))
}

/// The text that holds the entry of `k` and `v`: the encoded key, `=` and
/// the encoded value.
pub open spec fn entry_text(k: Seq<char>, v: Seq<char>) -> Seq<char> {
    encode_spec(k, true).push('=') + encode_spec(v, false)
}

/// The physical line that holds the entry of `k` and `v`: its text and a
/// line feed.
pub open spec fn entry_line(k: Seq<char>, v: Seq<char>) -> Seq<char> {
    entry_text(k, v).push('\n')
}

/// The logical lines that hold the entries `e`, one line each.
pub open spec fn store_texts(e: Listing) -> Seq<Seq<char>> {
    Seq::new(e.len(), |i: int| entry_text(e[i].0, e[i].1))
}

/// The physical lines that hold the entries `e`, one line each.
pub open spec fn store_lines_spec(e: Listing) -> Seq<Seq<char>> {
    Seq::new(e.len(), |i: int| entry_line(e[i].0, e[i].1))
}

/// The mapping after the text `text` has been loaded into `m`.
pub open spec fn load_spec(m: Map<Seq<char>, Seq<char>>, text: Seq<char>) -> Map<
    Seq<char>,
    Seq<char>,
> {
    load_lines_spec(m, split_lines_spec(text))
}

/// The text that holds the entries `e`: their lines one after the other.
pub open spec fn store_spec(e: Listing) -> Seq<char> {
    join_lines(store_lines_spec(e))
}

/// The entries whose keys are `keys` and whose values stand at the same
/// places in `values`.
spec fn paired(keys: Seq<String>, values: Seq<String>) -> Listing {
    Seq::new(keys.len(), |i: int| (keys[i]@, values[i]@))
}

/// A list of properties: each key has one value.
pub struct Properties {
    keys: Vec<String>,
    values: Vec<String>,
}

impl View for Properties {
    type V = Map<Seq<char>, Seq<char>>;

    /// The mapping from each key to its value.
    open spec fn view(&self) -> Map<Seq<char>, Seq<char>> {
        entries_map(self.listing())
    }
}

impl Properties {
    /// The entries in the order in which they are kept and written out.
    pub closed spec fn listing(&self) -> Listing {
        paired(self.keys@, self.values@)
    }

    #[verifier::type_invariant]
    spec fn no_key_twice(&self) -> bool {
        self.keys.len() == self.values.len() && distinct_keys(self.listing())
    }

    /// Creates an empty list.
    pub fn new() -> (p: Properties)
        ensures
            p@ == Map::<Seq<char>, Seq<char>>::empty(),
            p.listing() == Listing::empty(),
    {
        let p = Properties { keys: Vec::new(), values: Vec::new() };
        assert(p.listing() =~= Listing::empty());
        p
    }

    /// The number of properties.
    pub fn len(&self) -> (n: usize)
        ensures
            n == self@.len(),
            n == self.listing().len(),
    {
        proof {
            use_type_invariant(self);
            lemma_entries_map_len(self.listing());
        }
        self.keys.len()
    }

    /// Whether the list holds no property.
    pub fn is_empty(&self) -> (b: bool)
        ensures
            b == (self@.len() == 0),
            b == (self@ == Map::<Seq<char>, Seq<char>>::empty()),
    {
        proof {
            use_type_invariant(self);
            lemma_entries_map_len(self.listing());
            if self@.len() == 0 {
                assert(self@ =~= Map::<Seq<char>, Seq<char>>::empty());
            }
        }
        self.keys.len() == 0
    }

    /// Removes all properties.
    pub fn clear(&mut self)
        ensures
            final(self)@ == Map::<Seq<char>, Seq<char>>::empty(),
            final(self).listing() == Listing::empty(),
    {
        *self = Properties::new();
    }

    fn position(&self, key: &String) -> (r: Option<usize>)
        ensures
            match r {
                Some(i) => i < self.listing().len() && self.listing()[i as int].0 == key@,
                None => !has_key(self.listing(), key@),
            },
    {
        proof {
            use_type_invariant(self);
        }
        let mut i: usize = 0;
        while i < self.keys.len()
            invariant
                i <= self.keys.len(),
                self.keys.len() == self.values.len(),
                forall|j: int| 0 <= j < i ==> (#[trigger] self.listing()[j]).0 != key@,
            decreases self.keys.len() - i,
        {
            if self.keys[i] == *key {
                return Some(i);
            }
            i += 1;
        }
        None
    }

    /// The value of the property `key`, or `None` where there is no such
    /// property.
    pub fn get(&self, key: &String) -> (r: Option<&String>)
        ensures
            match r {
                Some(v) => self@.contains_key(key@) && v@ == self@[key@],
                None => !self@.contains_key(key@),
            },
    {
        proof {
            use_type_invariant(self);
            lemma_entries_map_keys(self.listing(), key@);
        }
        match self.position(key) {
            Some(i) => {
                proof {
                    lemma_entries_map_value(self.listing(), i as int);
                }
                Some(&self.values[i])
            },
            None => None,
        }
    }

    /// The value of the property `key`, to be changed in place, or `None`
    /// where there is no such property. The list then holds for `key` what
    /// the caller leaves in the value, and is otherwise as before.
    pub fn get_mut(&mut self, key: &String) -> (r: Option<&mut String>)
        ensures
            match r {
                Some(v) => old(self)@.contains_key(key@) && v@ == old(self)@[key@] && final(self)@
                    == old(self)@.insert(key@, final(v)@) && final(self).listing() == put(
                    old(self).listing(),
                    key@,
                    final(v)@,
                ),
                None => !old(self)@.contains_key(key@) && *final(self) == *old(self),
            },
    {
        proof {
            use_type_invariant(&*self);
            lemma_entries_map_keys(self.listing(), key@);
        }
        let ghost before = self.listing();
        match self.position(key) {
            Some(i) => {
                proof {
                    lemma_entries_map_value(before, i as int);
                    lemma_key_index(before, key@, i as int);
                    assert forall|e: Listing|
                        e.len() == before.len() && (forall|j: int|
                            0 <= j < e.len() ==> (#[trigger] e[j]).0 == before[j].0 && (j
                                != i ==> e[j].1 == before[j].1)) implies distinct_keys(e)
                        && entries_map(e) == entries_map(before).insert(
                        before[i as int].0,
                        e[i as int].1,
                    ) && e == put(before, key@, e[i as int].1) by {
                        lemma_entries_map_update(before, i as int, e[i as int].1);
                        assert(e =~= before.update(i as int, (before[i as int].0, e[i as int].1)));
                    }
                }
                Some(&mut self.values[i])
            },
            None => None,
        }
    }

    /// Whether the list holds a property `key`.
    pub fn contains_key(&self, key: &String) -> (b: bool)
        ensures
            b == self@.contains_key(key@),
    {
        proof {
            use_type_invariant(self);
            lemma_entries_map_keys(self.listing(), key@);
        }
        match self.position(key) {
            Some(i) => {
                proof {
                    lemma_entries_map_value(self.listing(), i as int);
                }
                true
            },
            None => false,
        }
    }

    /// Gives the property `key` the value `value`. Where the property had a
    /// value, that value is replaced and returned; otherwise `None` is
    /// returned.
    pub fn insert(&mut self, key: String, value: String) -> (r: Option<String>)
        ensures
            final(self)@ == old(self)@.insert(key@, value@),
            final(self).listing() == put(old(self).listing(), key@, value@),
            match r {
                Some(v) => old(self)@.contains_key(key@) && v@ == old(self)@[key@],
                None => !old(self)@.contains_key(key@),
            },
    {
        proof {
            use_type_invariant(&*self);
            lemma_entries_map_keys(self.listing(), key@);
        }
        let ghost before = self.listing();
        let found = self.position(&key);
        let mut whole = Properties::new();
        core::mem::swap(self, &mut whole);
        let Properties { keys: mut ks, values: mut vs } = whole;
        match found {
            Some(i) => {
                proof {
                    lemma_entries_map_value(before, i as int);
                    lemma_key_index(before, key@, i as int);
                    lemma_put(before, key@, value@);
                }
                vs.push(value);
                let replaced = vs.swap_remove(i);
                assert(paired(ks@, vs@) =~= before.update(
                    i as int,
                    (before[i as int].0, value@),
                ));
                *self = Properties { keys: ks, values: vs };
                Some(replaced)
            },
            None => {
                proof {
                    lemma_put(before, key@, value@);
                }
                ks.push(key);
                vs.push(value);
                assert(paired(ks@, vs@) =~= before.push((key@, value@)));
                *self = Properties { keys: ks, values: vs };
                None
            },
        }
    }

    /// Removes the property `key`. Where it had a value, that value is
    /// returned; otherwise `None` is returned and the list is left as it was.
    pub fn remove(&mut self, key: &String) -> (r: Option<String>)
        ensures
            final(self)@ == old(self)@.remove(key@),
            final(self).listing() == without(old(self).listing(), key@),
            match r {
                Some(v) => old(self)@.contains_key(key@) && v@ == old(self)@[key@],
                None => !old(self)@.contains_key(key@),
            },
    {
        proof {
            use_type_invariant(&*self);
            lemma_entries_map_keys(self.listing(), key@);
        }
        let ghost before = self.listing();
        match self.position(key) {
            Some(i) => {
                proof {
                    lemma_entries_map_value(before, i as int);
                    lemma_key_index(before, key@, i as int);
                    lemma_without(before, key@);
                }
                let mut whole = Properties::new();
                core::mem::swap(self, &mut whole);
                let Properties { keys: mut ks, values: mut vs } = whole;
                ks.remove(i);
                let removed = vs.remove(i);
                assert(paired(ks@, vs@) =~= before.remove(i as int));
                *self = Properties { keys: ks, values: vs };
                Some(removed)
            },
            None => {
                proof {
                    lemma_without(before, key@);
                }
                None
            },
        }
    }

    /// Loads properties from the physical lines `lines`, each with or without
    /// its line terminator. Continued lines are joined, comments and blank
    /// lines are dropped, and each logical line gives one key its value; a
    /// key that comes again gets the later value. No line is refused. A
    /// continued line with no line behind it is dropped.
    pub fn load_lines(&mut self, lines: &Vec<String>)
        ensures
            final(self)@ == load_lines_spec(old(self)@, lines.deep_view()),
            final(self).listing() == put_lines(
                old(self).listing(),
                logical_lines_spec(lines.deep_view()),
            ),
    {
        proof {
            use_type_invariant(&*self);
            lemma_put_lines(self.listing(), logical_lines_spec(lines.deep_view()));
        }
        let mut pending: Vec<char> = Vec::new();
        let mut i: usize = 0;
        while i < lines.len()
            invariant
                i <= lines.len(),
                pending@ == pending_after(lines.deep_view().take(i as int)),
                self.listing() == put_lines(
                    old(self).listing(),
                    logical_lines_spec(lines.deep_view().take(i as int)),
                ),
            decreases lines.len() - i,
        {
            proof {
                let t = lines.deep_view().take(i + 1);
                assert(t.drop_last() =~= lines.deep_view().take(i as int));
                assert(t.last() == lines[i as int]@);
            }
            let ghost logical = logical_lines_spec(lines.deep_view().take(i as int));
            match feed_line(&mut pending, lines[i].as_str()) {
                Some(l) => {
                    assert(logical.push(l@).drop_last() =~= logical);
                    let (key, value) = parse_entry(&l);
                    self.insert(key, value);
                },
                None => {},
            }
            i += 1;
        }
        assert(lines.deep_view().take(lines.len() as int) =~= lines.deep_view());
    }

    /// Writes the properties out as physical lines, one per property in the
    /// order of [`Self::listing`]: the encoded key, `=`, the encoded value
    /// and a line feed. [`Self::load_lines`] reads them back.
    pub fn store_lines(&self) -> (lines: Vec<String>)
        ensures
            lines.deep_view() == store_lines_spec(self.listing()),
            distinct_keys(self.listing()),
            load_lines_spec(Map::empty(), lines.deep_view()) == self@,
            put_lines(Listing::empty(), logical_lines_spec(lines.deep_view())) == self.listing(),
    {
        proof {
            use_type_invariant(self);
            lemma_store_load_lines(self.listing());
            lemma_store_load_order(self.listing());
        }
        let mut lines: Vec<String> = Vec::new();
        let mut i: usize = 0;
        while i < self.keys.len()
            invariant
                i <= self.keys.len(),
                self.keys.len() == self.values.len(),
                lines.deep_view() == store_lines_spec(self.listing().take(i as int)),
            decreases self.keys.len() - i,
        {
            let ghost before = lines.deep_view();
            let mut line = encode_chars(self.keys[i].as_str(), true);
            line.push('=');
            let value = encode_chars(self.values[i].as_str(), false);
            line.append(value.as_str());
            line.push('\n');
            lines.push(line);
            i += 1;
            assert(lines.deep_view() =~= before.push(line@));
            assert(lines.deep_view() =~= store_lines_spec(self.listing().take(i as int)));
        }
        assert(self.listing().take(self.keys.len() as int) =~= self.listing());
        lines
    }

    /// Loads properties from `text`, the whole of what a stream held: the
    /// text is cut into physical lines and these are loaded as
    /// [`Self::load_lines`] does.
    pub fn load(&mut self, text: &str)
        ensures
            final(self)@ == load_spec(old(self)@, text@),
            final(self).listing() == put_lines(
                old(self).listing(),
                logical_lines_spec(split_lines_spec(text@)),
            ),
    {
        let lines = split_lines(text);
        self.load_lines(&lines);
    }

    /// Writes the properties out as one text, suitable for [`Self::load`]:
    /// the lines of [`Self::store_lines`] one after the other.
    pub fn store(&self) -> (text: String)
        ensures
            text@ == store_spec(self.listing()),
            distinct_keys(self.listing()),
            split_lines_spec(text@) == store_lines_spec(self.listing()),
            load_spec(Map::empty(), text@) == self@,
            put_lines(Listing::empty(), logical_lines_spec(split_lines_spec(text@)))
                == self.listing(),
    {
        proof {
            lemma_store_split(self.listing());
            lemma_store_load(self.listing());
        }
        let lines = self.store_lines();
        concat_lines(&lines)
    }

    /// The keys, in the order of [`Self::listing`]. No key occurs twice.
    pub fn keys(&self) -> (r: &Vec<String>)
        ensures
            r.len() == self.listing().len(),
            forall|i: int| 0 <= i < r.len() ==> (#[trigger] r[i])@ == self.listing()[i].0,
            forall|i: int| 0 <= i < r.len() ==> self@.contains_key((#[trigger] r[i])@),
            distinct_keys(self.listing()),
    {
        proof {
            use_type_invariant(self);
            assert forall|i: int| 0 <= i < self.keys.len() implies self@.contains_key(
                (#[trigger] self.keys[i])@,
            ) by {
                lemma_entries_map_value(self.listing(), i);
            }
        }
        &self.keys
    }

    /// The values, in the order of [`Self::listing`]: each is the value of
    /// the key that [`Self::keys`] gives at the same place.
    pub fn values(&self) -> (r: &Vec<String>)
        ensures
            r.len() == self.listing().len(),
            forall|i: int| 0 <= i < r.len() ==> (#[trigger] r[i])@ == self.listing()[i].1,
            forall|i: int|
                0 <= i < self.listing().len() ==> self@.contains_key(
                    (#[trigger] self.listing()[i]).0,
                ) && self@[self.listing()[i].0] == self.listing()[i].1,
    {
        proof {
            use_type_invariant(self);
            assert forall|i: int| 0 <= i < self.listing().len() implies self@.contains_key(
                (#[trigger] self.listing()[i]).0,
            ) && self@[self.listing()[i].0] == self.listing()[i].1 by {
                lemma_entries_map_value(self.listing(), i);
            }
        }
        &self.values
    }

    /// All properties, key and value, in the order of [`Self::listing`]. No
    /// key occurs twice, and each value is the one that the mapping gives
    /// its key.
    pub fn iter(&self) -> (r: Vec<(&String, &String)>)
        ensures
            r.deep_view() == self.listing(),
            distinct_keys(self.listing()),
            forall|i: int|
                0 <= i < r.len() ==> self@.contains_key((#[trigger] r[i]).0@) && self@[r[i].0@]
                    == r[i].1@,
    {
        proof {
            use_type_invariant(self);
        }
        let mut r: Vec<(&String, &String)> = Vec::new();
        let mut i: usize = 0;
        while i < self.keys.len()
            invariant
                i <= self.keys.len(),
                self.keys.len() == self.values.len(),
                distinct_keys(self.listing()),
                r.deep_view() == self.listing().take(i as int),
                forall|j: int|
                    0 <= j < r.len() ==> self@.contains_key((#[trigger] r[j]).0@) && self@[r[j].0@]
                        == r[j].1@,
            decreases self.keys.len() - i,
        {
            proof {
                lemma_entries_map_value(self.listing(), i as int);
            }
            let ghost before = r.deep_view();
            r.push((&self.keys[i], &self.values[i]));
            i += 1;
            assert(r.deep_view() =~= before.push(self.listing()[i - 1]));
            assert(r.deep_view() =~= self.listing().take(i as int));
        }
        assert(self.listing().take(self.keys.len() as int) =~= self.listing());
        r
    }
}

} // verus!
