//! Search of names by the words in them: a whole name finds the ids it was given with,
//! matching case exactly; otherwise each word of the query, in any case, finds the ids of the
//! names that have a word of more than two bytes beginning with it, and a query of several
//! words finds the ids found by all of them.
use std::collections::HashSet;
use vstd::prelude::*;
use vstd::std_specs::iter::IteratorSpec;
use vstd::string::*;
use vstd::utf8::encode_utf8;

use lazysort::SortedBy;
use std::cmp::Ordering;
use tst::TSTMap;

use crate::radar::{is_white_space, white_space};

verus! {

broadcast use vstd::std_specs::hash::group_hash_axioms;

/// tst's `TSTMap`, a map from text keys kept in a ternary search tree.
#[verifier::external_type_specification]
#[verifier::external_body]
#[verifier::reject_recursive_types(Value)]
pub struct ExTSTMap<Value>(TSTMap<Value>);

/// A map from text keys to sets of ids.
pub type IdSets = TSTMap<HashSet<u64>>;

/// What a `TSTMap` of id sets holds: for each key, its ids.
pub uninterp spec fn id_sets(m: IdSets) -> Map<Seq<char>, Set<u64>>;

/// What std's `str::to_lowercase` makes of a text.
pub uninterp spec fn lowercase(s: Seq<char>) -> Seq<char>;

/// No keys, and so no ids.
pub open spec fn no_ids() -> Map<Seq<char>, Set<u64>> {
    Map::empty()
}

/// tst's `TSTMap::new`.
/// Claims that the new map holds nothing.
#[verifier::external_body]
fn new_id_sets() -> (m: IdSets)
    ensures
        id_sets(m) == no_ids(),
{
    TSTMap::new()
}

/// tst's `TSTMap::len`.
/// Claims that it counts the keys.
#[verifier::external_body]
fn id_sets_len(m: &IdSets) -> (n: usize)
    ensures
        n == id_sets(*m).dom().len(),
{
    m.len()
}

/// tst's `TSTMap::get`.
/// Claims that it gives the ids of the key when the map holds the key, and nothing else.
#[verifier::external_body]
fn id_sets_get<'a>(m: &'a IdSets, key: &str) -> (r: Option<&'a HashSet<u64>>)
    ensures
        match r {
            Some(ids) => id_sets(*m).contains_key(key@) && ids@ == id_sets(*m)[key@],
            None => !id_sets(*m).contains_key(key@),
        },
{
    m.get(key)
}

/// tst's `TSTMap::insert`, which panics on an empty key.
/// Claims that the key then has the ids given and the other keys keep theirs.
#[verifier::external_body]
fn id_sets_insert(m: &mut IdSets, key: &str, ids: HashSet<u64>)
    requires
        key@.len() > 0,
    ensures
        id_sets(*final(m)) == id_sets(*old(m)).insert(key@, ids@),
{
    m.insert(key, ids);
}

/// tst's `TSTMap::prefix_iter`, with the pairs it yields collected.
/// Claims that it yields the keys that begin with a non-empty prefix, including the prefix
/// itself, each with its ids, and nothing for an empty prefix; the order is left open.
#[verifier::external_body]
fn id_sets_with_prefix<'a>(m: &'a IdSets, prefix: &str) -> (r: Vec<(String, &'a HashSet<u64>)>)
    ensures
        forall|i: int|
            0 <= i < r@.len() ==> {
                &&& prefix@.len() > 0
                &&& prefix@.is_prefix_of((#[trigger] r@[i]).0@)
                &&& id_sets(*m).contains_key(r@[i].0@)
                &&& r@[i].1@ == id_sets(*m)[r@[i].0@]
            },
        forall|k: Seq<char>|
            #[trigger] id_sets(*m).contains_key(k) && prefix@.len() > 0 && prefix@.is_prefix_of(k) ==> exists|i: int|
                0 <= i < r@.len() && r@[i].0@ == k,
{
    m.prefix_iter(prefix).collect()
}

/// std's `str::to_lowercase`.
/// Claims that the result is the lowercase of the text and that a text that is not empty
/// stays so (each character becomes one or more).
#[verifier::external_body]
fn to_lowercase(s: &str) -> (r: String)
    ensures
        r@ == lowercase(s@),
        s@.len() > 0 ==> r@.len() > 0,
{
    s.to_lowercase()
}

/// The words found so far and the word under way, after the characters of `s`.
pub open spec fn word_split(s: Seq<char>) -> (Seq<Seq<char>>, Seq<char>)
    decreases s.len(),
{
    if s.len() == 0 {
        (Seq::empty(), Seq::empty())
    } else {
        let (done, current) = word_split(s.drop_last());
        if is_white_space(s.last()) {
            if current.len() > 0 {
                (done.push(current), Seq::empty())
            } else {
                (done, current)
            }
        } else {
            (done, current.push(s.last()))
        }
    }
}

/// The words of `s`: its longest runs of characters that are not white space, in order.
pub open spec fn words_of(s: Seq<char>) -> Seq<Seq<char>> {
    let (done, current) = word_split(s);
    if current.len() > 0 {
        done.push(current)
    } else {
        done
    }
}

/// The words are not empty.
proof fn lemma_words_not_empty(s: Seq<char>)
    ensures
        forall|i: int| 0 <= i < words_of(s).len() ==> (#[trigger] words_of(s)[i]).len() > 0,
        forall|i: int| 0 <= i < word_split(s).0.len() ==> (#[trigger] word_split(s).0[i]).len() > 0,
    decreases s.len(),
{
    if s.len() > 0 {
        lemma_words_not_empty(s.drop_last());
        let (done, current) = word_split(s.drop_last());
        assert forall|i: int| 0 <= i < word_split(s).0.len() implies (#[trigger] word_split(s).0[i]).len() > 0 by {
            if is_white_space(s.last()) && current.len() > 0 {
                assert(word_split(s).0 == done.push(current));
                if i < done.len() {
                    assert(done.push(current)[i] == done[i]);
                }
            } else {
                assert(word_split(s).0 == done);
            }
        }
    }
    let (done, current) = word_split(s);
    assert forall|i: int| 0 <= i < words_of(s).len() implies (#[trigger] words_of(s)[i]).len() > 0 by {
        if current.len() > 0 {
            assert(words_of(s) == done.push(current));
            if i < done.len() {
                assert(done.push(current)[i] == done[i]);
            }
        }
    }
}

/// The words of `s`, as `str::split_whitespace` gives them: its longest runs of characters
/// that are not white space, in order.
fn split_words(s: &str) -> (r: Vec<&str>)
    ensures
        r@.len() == words_of(s@).len(),
        forall|i: int| 0 <= i < r@.len() ==> (#[trigger] r@[i])@ == words_of(s@)[i],
{
    let n = s.unicode_len();
    let mut r: Vec<&str> = Vec::new();
    let mut start: usize = 0;
    let mut i: usize = 0;
    proof {
        assert(s@.take(0) =~= Seq::<char>::empty());
        assert(r@.map_values(|w: &str| w@) =~= Seq::<Seq<char>>::empty());
        assert(s@.subrange(0, 0) =~= Seq::<char>::empty());
    }
    while i < n
        invariant
            n == s@.len(),
            start <= i <= n,
            word_split(s@.take(i as int)).0 == r@.map_values(|w: &str| w@),
            word_split(s@.take(i as int)).1 == s@.subrange(start as int, i as int),
        decreases n - i,
    {
        let c = s.get_char(i);
        let ghost before = r@;
        proof {
            assert(s@.take(i + 1).drop_last() =~= s@.take(i as int));
            assert(s@.take(i + 1).last() == c);
        }
        if white_space(c) {
            if start < i {
                r.push(s.substring_char(start, i));
                proof {
                    assert(r@.map_values(|w: &str| w@) =~= before.map_values(|w: &str| w@).push(
                        s@.subrange(start as int, i as int),
                    ));
                }
            } else {
                proof {
                    assert(s@.subrange(start as int, i as int).len() == 0);
                }
            }
            start = i + 1;
            proof {
                assert(s@.subrange(start as int, i + 1) =~= Seq::<char>::empty());
            }
        } else {
            proof {
                assert(s@.subrange(start as int, i + 1) =~= s@.subrange(start as int, i as int).push(c));
            }
        }
        i = i + 1;
    }
    let ghost done = r@;
    proof {
        assert(s@.take(n as int) =~= s@);
    }
    if start < n {
        r.push(s.substring_char(start, n));
        proof {
            assert(r@.map_values(|w: &str| w@) =~= done.map_values(|w: &str| w@).push(s@.subrange(start as int, n as int)));
        }
    }
    proof {
        let words = r@.map_values(|w: &str| w@);
        assert(words =~= words_of(s@));
        assert forall|i: int| 0 <= i < r@.len() implies (#[trigger] r@[i])@ == words_of(s@)[i] by {
            assert(words[i] == r@[i]@);
        }
    }
    r
}

/// `m` with `value` added to the ids of `key`.
pub open spec fn with_id(m: Map<Seq<char>, Set<u64>>, key: Seq<char>, value: u64) -> Map<Seq<char>, Set<u64>> {
    m.insert(
        key,
        if m.contains_key(key) {
            m[key].insert(value)
        } else {
            set![value]
        },
    )
}

/// `m` with `value` added to the lowercase of each of the words longer than two bytes.
pub open spec fn with_word_ids(m: Map<Seq<char>, Set<u64>>, words: Seq<Seq<char>>, value: u64) -> Map<
    Seq<char>,
    Set<u64>,
>
    decreases words.len(),
{
    if words.len() == 0 {
        m
    } else {
        let before = with_word_ids(m, words.drop_last(), value);
        if encode_utf8(words.last()).len() > 2 {
            with_id(before, lowercase(words.last()), value)
        } else {
            before
        }
    }
}

/// The ids of the keys of `m` that begin with the non-empty prefix `p`.
pub open spec fn ids_with_prefix(m: Map<Seq<char>, Set<u64>>, p: Seq<char>) -> Set<u64> {
    Set::new(
        |v: u64|
            exists|k: Seq<char>| #[trigger] m.contains_key(k) && p.len() > 0 && p.is_prefix_of(k) && m[k].contains(v),
    )
}

/// The ids found by all of the words of a query, none for no words.
pub open spec fn ids_of_words(m: Map<Seq<char>, Set<u64>>, parts: Seq<Seq<char>>) -> Option<Set<u64>>
    decreases parts.len(),
{
    if parts.len() == 0 {
        None
    } else {
        let found = ids_with_prefix(m, lowercase(parts.last()));
        match ids_of_words(m, parts.drop_last()) {
            Some(before) => Some(found.intersect(before)),
            None => Some(found),
        }
    }
}

/// The ids a query finds: those of the name when it is one exactly, else those its words
/// find.
pub open spec fn search_result(exact: Map<Seq<char>, Set<u64>>, words: Map<Seq<char>, Set<u64>>, query: Seq<char>) -> Set<
    u64,
> {
    if exact.contains_key(query) {
        exact[query]
    } else {
        match ids_of_words(words, words_of(query)) {
            Some(found) => found,
            None => Set::empty(),
        }
    }
}

/// A copy of a set of ids.
fn copy_ids(ids: &HashSet<u64>) -> (r: HashSet<u64>)
    ensures
        r@ == ids@,
{
    let mut r: HashSet<u64> = HashSet::new();
    for v in it: ids.iter()
        invariant
            it.seq() == vstd::std_specs::hash::spec_hash_keys_iter(ids).remaining(),
            r@ == it.seq().take(it.index()).map_values(|k: &u64| *k).to_set(),
    {
        let ghost before = it.seq().take(it.index()).map_values(|k: &u64| *k);
        r.insert(*v);
        proof {
            assert(it.seq().take(it.index() + 1).map_values(|k: &u64| *k) =~= before.push(*v));
            before.lemma_push_to_set_commute(*v);
        }
    }
    proof {
        vstd::std_specs::hash::axiom_spec_hash_keys_iter(ids);
        let all = vstd::std_specs::hash::spec_hash_keys_iter(ids).remaining();
        assert(all.take(all.len() as int).map_values(|k: &u64| *k) =~= all.unref());
    }
    r
}

/// Adds `value` to the ids of `key`.
fn add_id(m: &mut IdSets, key: &str, value: u64)
    requires
        key@.len() > 0,
    ensures
        id_sets(*final(m)) == with_id(id_sets(*old(m)), key@, value),
{
    let mut ids = match id_sets_get(m, key) {
        Some(existing) => copy_ids(existing),
        None => HashSet::new(),
    };
    ids.insert(value);
    proof {
        if !id_sets(*m).contains_key(key@) {
            assert(ids@ =~= set![value]);
        }
    }
    id_sets_insert(m, key, ids);
}

/// `v` passes the filter of the ids found before, if there is one.
pub open spec fn kept(before: Option<HashSet<u64>>, v: u64) -> bool {
    match before {
        Some(b) => b@.contains(v),
        None => true,
    }
}

/// The ids of `s` that pass the filter of `before`.
pub open spec fn kept_ids(s: Set<u64>, before: Option<HashSet<u64>>) -> Set<u64> {
    s.filter(|v: u64| kept(before, v))
}

/// Adds to `found` the ids of `ids` that pass the filter of `before`.
fn add_kept(found: &mut HashSet<u64>, ids: &HashSet<u64>, before: &Option<HashSet<u64>>)
    ensures
        forall|v: u64| #[trigger] final(found)@.contains(v) <==> old(found)@.contains(v) || (ids@.contains(v) && kept(*before, v)),
{
    let ghost start = old(found)@;
    for v in it: ids.iter()
        invariant
            it.seq() == vstd::std_specs::hash::spec_hash_keys_iter(ids).remaining(),
            forall|w: u64|
                found@.contains(w) <==> start.contains(w) || (it.seq().take(it.index()).map_values(|k: &u64| *k).to_set().contains(w)
                    && kept(*before, w)),
    {
        let ghost seen = it.seq().take(it.index()).map_values(|k: &u64| *k);
        let keep = match before {
            Some(b) => b.contains(v),
            None => true,
        };
        if keep {
            found.insert(*v);
        }
        proof {
            assert(it.seq().take(it.index() + 1).map_values(|k: &u64| *k) =~= seen.push(*v));
            seen.lemma_push_to_set_commute(*v);
        }
    }
    proof {
        vstd::std_specs::hash::axiom_spec_hash_keys_iter(ids);
        let all = vstd::std_specs::hash::spec_hash_keys_iter(ids).remaining();
        assert(all.take(all.len() as int).map_values(|k: &u64| *k) =~= all.unref());
    }
}

/// The ids of the first `n` sets.
pub open spec fn union_upto(sets: Seq<Set<u64>>, n: int) -> Set<u64>
    decreases n,
{
    if n <= 0 {
        Set::empty()
    } else {
        union_upto(sets, n - 1).union(sets[n - 1])
    }
}

/// An id is among the first `n` sets when one of them has it.
proof fn lemma_union_upto(sets: Seq<Set<u64>>, n: int)
    ensures
        forall|v: u64| union_upto(sets, n).contains(v) <==> exists|j: int| 0 <= j < n && (#[trigger] sets[j]).contains(v),
    decreases n,
{
    if n > 0 {
        lemma_union_upto(sets, n - 1);
        assert forall|v: u64| union_upto(sets, n).contains(v) <==> exists|j: int| 0 <= j < n && (#[trigger] sets[j]).contains(v) by {
            if union_upto(sets, n).contains(v) {
                assert(union_upto(sets, n) == union_upto(sets, n - 1).union(sets[n - 1]));
                if sets[n - 1].contains(v) {
                    assert(0 <= n - 1 < n && sets[n - 1].contains(v));
                } else {
                    assert(union_upto(sets, n - 1).contains(v));
                    let j = choose|j: int| 0 <= j < n - 1 && (#[trigger] sets[j]).contains(v);
                    assert(0 <= j < n && sets[j].contains(v));
                }
            }
            if exists|j: int| 0 <= j < n && (#[trigger] sets[j]).contains(v) {
                let j = choose|j: int| 0 <= j < n && (#[trigger] sets[j]).contains(v);
                if j < n - 1 {
                    assert(0 <= j < n - 1 && sets[j].contains(v));
                    assert(union_upto(sets, n - 1).contains(v));
                }
            }
        }
    }
}

/// Text search over names, each given with an id.
pub struct Suggester {
    exact: IdSets,
    lowercase_words: IdSets,
}

impl Suggester {
    /// For each name, the ids it was given with.
    pub closed spec fn names(&self) -> Map<Seq<char>, Set<u64>> {
        id_sets(self.exact)
    }

    /// For each word of a name, in lowercase, the ids of the names with the word.
    pub closed spec fn words(&self) -> Map<Seq<char>, Set<u64>> {
        id_sets(self.lowercase_words)
    }

    /// A search over no names.
    pub fn new() -> (s: Suggester)
        ensures
            s.names() == Map::<Seq<char>, Set<u64>>::empty(),
            s.words() == Map::<Seq<char>, Set<u64>>::empty(),
    {
        Suggester { lowercase_words: new_id_sets(), exact: new_id_sets() }
    }

    /// Adds a name with its id: the name finds the id, and so does each of its words longer
    /// than two bytes, in any case.
    pub fn insert(&mut self, key: &str, value: u64)
        requires
            key@.len() > 0,
        ensures
            final(self).names() == with_id(old(self).names(), key@, value),
            final(self).words() == with_word_ids(old(self).words(), words_of(key@), value),
    {
        add_id(&mut self.exact, key, value);
        let ghost names = id_sets(self.exact);
        let parts = split_words(key);
        let ghost words = words_of(key@);
        let ghost start = id_sets(self.lowercase_words);
        proof {
            lemma_words_not_empty(key@);
        }
        let mut i: usize = 0;
        while i < parts.len()
            invariant
                i <= parts@.len() == words.len(),
                words == words_of(key@),
                names == id_sets(self.exact),
                forall|j: int| 0 <= j < parts@.len() ==> (#[trigger] parts@[j])@ == words[j],
                forall|j: int| 0 <= j < words.len() ==> (#[trigger] words[j]).len() > 0,
                id_sets(self.lowercase_words) == with_word_ids(start, words.take(i as int), value),
            decreases parts@.len() - i,
        {
            let word = parts[i];
            proof {
                assert(words.take(i + 1).drop_last() =~= words.take(i as int));
                assert(words.take(i + 1).last() == word@);
                assert(word@.len() > 0);
            }
            let ghost before = id_sets(self.lowercase_words);
            assert(with_word_ids(start, words.take(i + 1), value) == if encode_utf8(word@).len() > 2 {
                with_id(before, lowercase(word@), value)
            } else {
                before
            });
            let bytes = word.as_bytes();
            if bytes.len() > 2 {
                let lower = to_lowercase(word);
                let lower_str = lower.as_str();
                add_id(&mut self.lowercase_words, lower_str, value);
            }
            i = i + 1;
        }
        assert(words.take(i as int) =~= words);
    }

    /// The number of distinct words, in lowercase, of the names.
    pub fn num_words(&self) -> (n: usize)
        ensures
            n == self.words().dom().len(),
    {
        id_sets_len(&self.lowercase_words)
    }

    /// The words, in lowercase, that begin with the lowercase of `prefix`, with the ids of
    /// the names that have them; none for an empty prefix.
    pub fn prefix_iter(&self, prefix: &str) -> (r: Vec<(String, &HashSet<u64>)>)
        ensures
            r@.len() > 0 ==> lowercase(prefix@).len() > 0,
            forall|i: int| 0 <= i < r@.len() ==> lowercase(prefix@).is_prefix_of((#[trigger] r@[i]).0@),
            forall|i: int| 0 <= i < r@.len() ==> self.words().contains_key((#[trigger] r@[i]).0@),
            forall|i: int| 0 <= i < r@.len() ==> (#[trigger] r@[i]).1@ == self.words()[r@[i].0@],
            forall|k: Seq<char>|
                #[trigger] self.words().contains_key(k) && lowercase(prefix@).len() > 0 && lowercase(prefix@).is_prefix_of(k)
                    ==> exists|i: int| 0 <= i < r@.len() && r@[i].0@ == k,
    {
        let lower = to_lowercase(prefix);
        let lower_str = lower.as_str();
        assert(lower_str@ == lowercase(prefix@));
        let r = id_sets_with_prefix(&self.lowercase_words, lower_str);
        proof {
            if r@.len() > 0 {
                assert(lower_str@.is_prefix_of(r@[0].0@));
            }
        }
        r
    }

    /// The ids of the names with a word beginning with `part`, in any case, that are also
    /// among `before` when it is given.
    fn ids_with_word(&self, part: &str, before: &Option<HashSet<u64>>) -> (r: HashSet<u64>)
        ensures
            r@ == match before {
                Some(b) => ids_with_prefix(self.words(), lowercase(part@)).intersect(b@),
                None => ids_with_prefix(self.words(), lowercase(part@)),
            },
    {
        let entries = self.prefix_iter(part);
        let ghost m = self.words();
        let ghost p = lowercase(part@);
        let ghost sets = entries@.map_values(|e: (String, &HashSet<u64>)| e.1@);
        let mut found: HashSet<u64> = HashSet::new();
        let mut i: usize = 0;
        assert(found@ =~= kept_ids(union_upto(sets, 0), *before));
        while i < entries.len()
            invariant
                i <= entries@.len() == sets.len(),
                sets == entries@.map_values(|e: (String, &HashSet<u64>)| e.1@),
                found@ == kept_ids(union_upto(sets, i as int), *before),
            decreases entries@.len() - i,
        {
            assert(sets[i as int] == entries@[i as int].1@);
            let ghost prev = found@;
            add_kept(&mut found, entries[i].1, before);
            assert(union_upto(sets, i + 1) == union_upto(sets, i as int).union(sets[i as int]));
            assert forall|v: u64| found@.contains(v) <==> kept_ids(union_upto(sets, i + 1), *before).contains(v) by {
                assert(prev.contains(v) <==> kept_ids(union_upto(sets, i as int), *before).contains(v));
                assert(kept_ids(union_upto(sets, i as int), *before).contains(v) == (union_upto(sets, i as int).contains(v)
                    && kept(*before, v)));
                assert(kept_ids(union_upto(sets, i + 1), *before).contains(v) == (union_upto(sets, i + 1).contains(v) && kept(
                    *before,
                    v,
                )));
                assert(found@.contains(v) <==> prev.contains(v) || (sets[i as int].contains(v) && kept(*before, v)));
            }
            assert(found@ =~= kept_ids(union_upto(sets, i + 1), *before));
            i = i + 1;
        }
        proof {
            let target = match before {
                Some(b) => ids_with_prefix(m, p).intersect(b@),
                None => ids_with_prefix(m, p),
            };
            lemma_union_upto(sets, i as int);
            assert forall|v: u64| found@.contains(v) <==> target.contains(v) by {
                if found@.contains(v) {
                    let j = choose|j: int| 0 <= j < i && (#[trigger] sets[j]).contains(v);
                    let k = entries@[j].0@;
                    assert(m.contains_key(k) && p.len() > 0 && p.is_prefix_of(k) && m[k].contains(v));
                }
                if ids_with_prefix(m, p).contains(v) {
                    let k = choose|k: Seq<char>| #[trigger] m.contains_key(k) && p.len() > 0 && p.is_prefix_of(k) && m[k].contains(v);
                    let j = choose|j: int| 0 <= j < entries@.len() && entries@[j].0@ == k;
                    assert(sets[j].contains(v));
                }
            }
            assert(found@ =~= target);
        }
        found
    }

    /// The ids that the query finds: those of the name when it is one exactly, else those of
    /// the names that have, for each word of the query, a word beginning with it in any case.
    pub fn search(&self, query: &str) -> (r: HashSet<u64>)
        ensures
            r@ == search_result(self.names(), self.words(), query@),
    {
        if let Some(results) = id_sets_get(&self.exact, query) {
            return copy_ids(results);
        }
        let parts = split_words(query);
        let ghost words = words_of(query@);
        let mut results: Option<HashSet<u64>> = None;
        let mut i: usize = 0;
        while i < parts.len()
            invariant
                i <= parts@.len() == words.len(),
                words == words_of(query@),
                forall|j: int| 0 <= j < parts@.len() ==> (#[trigger] parts@[j])@ == words[j],
                match results {
                    Some(r) => ids_of_words(self.words(), words.take(i as int)) == Some(r@),
                    None => ids_of_words(self.words(), words.take(i as int)) is None,
                },
            decreases parts@.len() - i,
        {
            let found = self.ids_with_word(parts[i], &results);
            proof {
                assert(words.take(i + 1).drop_last() =~= words.take(i as int));
                assert(words.take(i + 1).last() == parts@[i as int]@);
                match results {
                    Some(r) => {
                        assert(found@ =~= ids_with_prefix(self.words(), lowercase(parts@[i as int]@)).intersect(r@));
                    },
                    None => {},
                }
            }
            results = Some(found);
            i = i + 1;
        }
        assert(words.take(i as int) =~= words);
        match results {
            Some(r) => r,
            None => {
                let r = HashSet::new();
                assert(r@ =~= Set::<u64>::empty());
                r
            },
        }
    }
}

/// The lowercase of one of the words longer than two bytes is `w`.
pub open spec fn is_long_word_of(words: Seq<Seq<char>>, w: Seq<char>) -> bool {
    exists|i: int| 0 <= i < words.len() && encode_utf8(#[trigger] words[i]).len() > 2 && lowercase(words[i]) == w
}

/// Adding an id to the words of a name: the lowercase of each long word gets the id, and the
/// other keys keep theirs.
pub proof fn lemma_with_word_ids(m: Map<Seq<char>, Set<u64>>, words: Seq<Seq<char>>, value: u64)
    ensures
        forall|w: Seq<char>| #[trigger] with_word_ids(m, words, value).contains_key(w) <==> m.contains_key(w) || is_long_word_of(words, w),
        forall|w: Seq<char>|
            #[trigger] with_word_ids(m, words, value).contains_key(w) ==> with_word_ids(m, words, value)[w] == if is_long_word_of(
                words,
                w,
            ) {
                if m.contains_key(w) {
                    m[w].insert(value)
                } else {
                    set![value]
                }
            } else {
                m[w]
            },
    decreases words.len(),
{
    if words.len() > 0 {
        let init = words.drop_last();
        lemma_with_word_ids(m, init, value);
        let before = with_word_ids(m, init, value);
        let last = words.last();
        assert forall|w: Seq<char>| is_long_word_of(words, w) <==> is_long_word_of(init, w) || (encode_utf8(last).len() > 2 && lowercase(last) == w) by {
            if is_long_word_of(words, w) {
                let i = choose|i: int| 0 <= i < words.len() && encode_utf8(#[trigger] words[i]).len() > 2 && lowercase(words[i]) == w;
                if i < words.len() - 1 {
                    assert(init[i] == words[i]);
                }
            }
            if is_long_word_of(init, w) {
                let i = choose|i: int| 0 <= i < init.len() && encode_utf8(#[trigger] init[i]).len() > 2 && lowercase(init[i]) == w;
                assert(words[i] == init[i]);
            }
            if encode_utf8(last).len() > 2 && lowercase(last) == w {
                assert(words[words.len() - 1] == last);
            }
        }
        assert forall|w: Seq<char>| #[trigger] with_word_ids(m, words, value).contains_key(w) implies with_word_ids(m, words, value)[w]
            == if is_long_word_of(words, w) {
            if m.contains_key(w) {
                m[w].insert(value)
            } else {
                set![value]
            }
        } else {
            m[w]
        } by {
            if encode_utf8(last).len() > 2 && lowercase(last) == w && is_long_word_of(init, w) {
                if m.contains_key(w) {
                    assert(m[w].insert(value).insert(value) =~= m[w].insert(value));
                } else {
                    assert(set![value].insert(value) =~= set![value]);
                }
            }
        }
    }
}

/// A query with no white space is its one word.
proof fn lemma_single_word(s: Seq<char>)
    requires
        s.len() > 0,
        forall|i: int| 0 <= i < s.len() ==> !is_white_space(#[trigger] s[i]),
    ensures
        words_of(s) == seq![s],
{
    lemma_no_space_split(s);
}

/// Without white space nothing is split off.
proof fn lemma_no_space_split(s: Seq<char>)
    requires
        forall|i: int| 0 <= i < s.len() ==> !is_white_space(#[trigger] s[i]),
    ensures
        word_split(s) == (Seq::<Seq<char>>::empty(), s),
    decreases s.len(),
{
    if s.len() > 0 {
        let init = s.drop_last();
        assert forall|i: int| 0 <= i < init.len() implies !is_white_space(#[trigger] init[i]) by {
            assert(init[i] == s[i]);
        }
        lemma_no_space_split(init);
        assert(!is_white_space(s[s.len() - 1]));
        assert(init.push(s.last()) =~= s);
    } else {
        assert(s =~= Seq::<char>::empty());
    }
}

/// A name added can be found by any of its words longer than two bytes, alone and in any
/// case, unless that word is itself another name, whose ids an exact match gives.
pub proof fn law_word_finds_name(
    names: Map<Seq<char>, Set<u64>>,
    words: Map<Seq<char>, Set<u64>>,
    key: Seq<char>,
    value: u64,
    word: Seq<char>,
)
    requires
        exists|i: int| 0 <= i < words_of(key).len() && #[trigger] words_of(key)[i] == word,
        encode_utf8(word).len() > 2,
        lowercase(word).len() > 0,
        with_id(names, key, value).contains_key(word) ==> word == key,
    ensures
        search_result(with_id(names, key, value), with_word_ids(words, words_of(key), value), word).contains(value),
{
    let names2 = with_id(names, key, value);
    let words2 = with_word_ids(words, words_of(key), value);
    lemma_words_not_empty(key);
    let i = choose|i: int| 0 <= i < words_of(key).len() && #[trigger] words_of(key)[i] == word;
    lemma_word_has_no_space(key, i);
    if !names2.contains_key(word) {
        lemma_single_word(word);
        lemma_with_word_ids(words, words_of(key), value);
        let p = lowercase(word);
        assert(is_long_word_of(words_of(key), p));
        assert(words2.contains_key(p));
        assert(words2[p].contains(value));
        assert(p.is_prefix_of(p));
        assert(ids_with_prefix(words2, p).contains(value));
        assert(seq![word].drop_last() =~= Seq::<Seq<char>>::empty());
        assert(seq![word].last() == word);
        assert(ids_of_words(words2, Seq::<Seq<char>>::empty()) is None);
        assert(ids_of_words(words2, seq![word]) == Some(ids_with_prefix(words2, p)));
    }
}

/// The words hold no white space.
proof fn lemma_word_has_no_space(s: Seq<char>, i: int)
    requires
        0 <= i < words_of(s).len(),
    ensures
        forall|j: int| 0 <= j < words_of(s)[i].len() ==> !is_white_space(#[trigger] words_of(s)[i][j]),
{
    lemma_split_has_no_space(s);
    let (done, current) = word_split(s);
    if current.len() > 0 && i == done.len() {
        assert(words_of(s)[i] == current);
    } else {
        assert(words_of(s)[i] == done[i]);
    }
}

/// The words split off and the word under way hold no white space.
proof fn lemma_split_has_no_space(s: Seq<char>)
    ensures
        forall|i: int, j: int|
            0 <= i < word_split(s).0.len() && 0 <= j < word_split(s).0[i].len() ==> !is_white_space(
                #[trigger] word_split(s).0[i][j],
            ),
        forall|j: int| 0 <= j < word_split(s).1.len() ==> !is_white_space(#[trigger] word_split(s).1[j]),
    decreases s.len(),
{
    if s.len() > 0 {
        lemma_split_has_no_space(s.drop_last());
        let (done, current) = word_split(s.drop_last());
        if is_white_space(s.last()) {
            if current.len() > 0 {
                assert forall|i: int, j: int|
                    0 <= i < word_split(s).0.len() && 0 <= j < word_split(s).0[i].len() implies !is_white_space(
                    #[trigger] word_split(s).0[i][j],
                ) by {
                    assert(word_split(s).0 == done.push(current));
                    if i < done.len() {
                        assert(done.push(current)[i] == done[i]);
                    }
                }
            }
        } else {
            assert forall|j: int| 0 <= j < word_split(s).1.len() implies !is_white_space(#[trigger] word_split(s).1[j]) by {
                assert(word_split(s).1 == current.push(s.last()));
                if j < current.len() {
                    assert(current.push(s.last())[j] == current[j]);
                }
            }
        }
    }
}

/// A match ranks no later than another: it is more important, or as important with an id
/// no larger.
pub open spec fn ranks_first(a: (u64, usize), b: (u64, usize)) -> bool {
    a.1 > b.1 || (a.1 == b.1 && a.0 <= b.0)
}

/// The matches are in order of rank.
pub open spec fn ranked(s: Seq<(u64, usize)>) -> bool {
    forall|i: int, j: int| 0 <= i < j < s.len() ==> ranks_first(s[i], s[j])
}

/// The order of two matches of a station search: the more important first, then the one
/// with the smaller id.
pub fn most_important(a: &(u64, usize), b: &(u64, usize)) -> (o: Ordering)
    ensures
        (o is Less) == (ranks_first(*a, *b) && *a != *b),
        (o is Equal) == (*a == *b),
        (o is Greater) == !ranks_first(*a, *b),
{
    if a.1 > b.1 {
        Ordering::Less
    } else if a.1 < b.1 {
        Ordering::Greater
    } else if a.0 < b.0 {
        Ordering::Less
    } else if a.0 > b.0 {
        Ordering::Greater
    } else {
        Ordering::Equal
    }
}

/// lazysort's `SortedBy::sorted_by` with `most_important`, collected.
/// Claims that the matches come out all, each as often as it went in, in order of rank.
#[verifier::external_body]
fn sort_by_importance(matches: Vec<(u64, usize)>) -> (r: Vec<(u64, usize)>)
    ensures
        r@.to_multiset() == matches@.to_multiset(),
        ranked(r@),
{
    matches.into_iter().sorted_by(most_important).collect()
}

/// The first `limit` matches in order of rank: the more important first, then the smaller
/// ids.
pub fn rank_matches(matches: Vec<(u64, usize)>, limit: usize) -> (r: Vec<(u64, usize)>)
    ensures
        exists|s: Seq<(u64, usize)>| #[trigger] s.to_multiset() == matches@.to_multiset() && ranked(s) && r@ == s.take(
            if limit < s.len() {
                limit as int
            } else {
                s.len() as int
            },
        ),
{
    let sorted = sort_by_importance(matches);
    let mut r: Vec<(u64, usize)> = Vec::new();
    let n = if limit < sorted.len() {
        limit
    } else {
        sorted.len()
    };
    let mut i: usize = 0;
    while i < n
        invariant
            i <= n <= sorted@.len(),
            r@ == sorted@.take(i as int),
        decreases n - i,
    {
        r.push(sorted[i]);
        assert(sorted@.take(i + 1) =~= sorted@.take(i as int).push(sorted@[i as int]));
        i = i + 1;
    }
    assert(sorted@.to_multiset() == matches@.to_multiset());
    r
}

} // verus!
