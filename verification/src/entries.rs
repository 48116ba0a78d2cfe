//! Lists of entries, each an integer key with what it stands for.
//!
//! A list is read as a map: the first entry with a key is the entry of that
//! key. Writing a key that is there replaces its entry where it stands;
//! writing a new key adds an entry at the end. So the order in which a list
//! is walked is the order in which its keys first came.

use vstd::prelude::*;

verus! {

/// Where the first entry with `key` stands, or the length of `s` if there
/// is none.
pub open spec fn index_of<V>(s: Seq<(i64, V)>, key: i64) -> int
    decreases s.len(),
{
    if s.len() == 0 {
        0
    } else if s[0].0 == key {
        0
    } else {
        1 + index_of(s.drop_first(), key)
    }
}

/// Whether `s` has an entry with `key`.
pub open spec fn has_key<V>(s: Seq<(i64, V)>, key: i64) -> bool {
    index_of(s, key) < s.len()
}

/// What `key` stands for in `s`.
pub open spec fn lookup<V>(s: Seq<(i64, V)>, key: i64) -> Option<V> {
    if has_key(s, key) {
        Some(s[index_of(s, key)].1)
    } else {
        None
    }
}

/// `s` with `key` standing for `value`.
pub open spec fn put<V>(s: Seq<(i64, V)>, key: i64, value: V) -> Seq<(i64, V)> {
    if has_key(s, key) {
        s.update(index_of(s, key), (key, value))
    } else {
        s.push((key, value))
    }
}

/// `s` after every entry of `more` was written to it, one after the other.
pub open spec fn put_all<V>(s: Seq<(i64, V)>, more: Seq<(i64, V)>) -> Seq<(i64, V)>
    decreases more.len(),
{
    if more.len() == 0 {
        s
    } else {
        put(put_all(s, more.drop_last()), more.last().0, more.last().1)
    }
}

/// Whether no key stands twice in `s`.
pub open spec fn distinct_keys<V>(s: Seq<(i64, V)>) -> bool {
    forall|i: int, j: int| 0 <= i < j < s.len() ==> s[i].0 != s[j].0
}

/// Where a scan from the left first meets `key` is where its entry stands.
pub proof fn lemma_index_of<V>(s: Seq<(i64, V)>, key: i64, at: int)
    requires
        0 <= at <= s.len(),
        forall|i: int| 0 <= i < at ==> s[i].0 != key,
        at < s.len() ==> s[at].0 == key,
    ensures
        index_of(s, key) == at,
    decreases s.len(),
{
    if s.len() > 0 && at > 0 {
        let rest = s.drop_first();
        assert(s[0].0 != key);
        assert forall|i: int| 0 <= i < at - 1 implies rest[i].0 != key by {
            assert(rest[i] == s[i + 1]);
        }
        lemma_index_of(rest, key, at - 1);
    }
}

/// The first entry with `key` stands behind entries with other keys only.
pub proof fn lemma_index_of_is_first<V>(s: Seq<(i64, V)>, key: i64)
    ensures
        0 <= index_of(s, key) <= s.len(),
        has_key(s, key) ==> s[index_of(s, key)].0 == key,
        forall|i: int| 0 <= i < index_of(s, key) ==> s[i].0 != key,
    decreases s.len(),
{
    if s.len() > 0 && s[0].0 != key {
        let rest = s.drop_first();
        lemma_index_of_is_first(rest, key);
        assert forall|i: int| 0 <= i < index_of(s, key) implies s[i].0 != key by {
            if i > 0 {
                assert(s[i] == rest[i - 1]);
            }
        }
    }
}

/// A key that was written stands for what was written; every other key
/// stands for what it stood for.
pub proof fn lemma_put<V>(s: Seq<(i64, V)>, key: i64, value: V, other: i64)
    ensures
        lookup(put(s, key, value), key) == Some(value),
        other != key ==> lookup(put(s, key, value), other) == lookup(s, other),
        distinct_keys(s) ==> distinct_keys(put(s, key, value)),
        put(s, key, value).len() == if has_key(s, key) {
            s.len()
        } else {
            s.len() + 1
        },
{
    let after = put(s, key, value);
    let at = index_of(s, key);
    lemma_index_of_is_first(s, key);
    lemma_index_of(after, key, at);
    if other != key {
        let there = index_of(s, other);
        lemma_index_of_is_first(s, other);
        if has_key(s, other) {
            lemma_index_of(after, other, there);
        } else {
            lemma_index_of(after, other, after.len() as int);
        }
    }
}

/// An entry added at the end is found under its key unless an earlier
/// entry has that key; every other key stands for what it stood for.
pub proof fn lemma_lookup_push<V>(s: Seq<(i64, V)>, entry: (i64, V), key: i64)
    ensures
        lookup(s.push(entry), key) == if has_key(s, key) {
            lookup(s, key)
        } else if entry.0 == key {
            Some(entry.1)
        } else {
            None
        },
{
    let more = s.push(entry);
    let at = index_of(s, key);
    lemma_index_of_is_first(s, key);
    if at < s.len() {
        lemma_index_of(more, key, at);
    } else if entry.0 == key {
        lemma_index_of(more, key, s.len() as int);
    } else {
        lemma_index_of(more, key, more.len() as int);
    }
}

/// A key is in a list exactly if some entry has it.
pub proof fn lemma_has_key<V>(s: Seq<(i64, V)>, key: i64)
    ensures
        has_key(s, key) <==> exists|i: int| 0 <= i < s.len() && (#[trigger] s[i]).0 == key,
{
    lemma_index_of_is_first(s, key);
    if has_key(s, key) {
        assert(s[index_of(s, key)].0 == key);
    } else {
        lemma_index_of_is_first(s, key);
    }
}

/// Writing entries one after the other to a list without double keys
/// leaves no key double.
pub proof fn lemma_put_all_keeps_distinct<V>(s: Seq<(i64, V)>, more: Seq<(i64, V)>)
    requires
        distinct_keys(s),
    ensures
        distinct_keys(put_all(s, more)),
    decreases more.len(),
{
    if more.len() > 0 {
        lemma_put_all_keeps_distinct(s, more.drop_last());
        lemma_put(put_all(s, more.drop_last()), more.last().0, more.last().1, 0);
    }
}

/// Entries without double keys, written one after the other to an empty
/// list, make the list they came from.
pub proof fn lemma_put_all_of_distinct<V>(more: Seq<(i64, V)>)
    requires
        distinct_keys(more),
    ensures
        put_all(Seq::empty(), more) == more,
    decreases more.len(),
{
    if more.len() > 0 {
        let head = more.drop_last();
        let last = more.last();
        lemma_put_all_of_distinct(head);
        lemma_has_key(head, last.0);
        assert(!has_key(head, last.0)) by {
            if has_key(head, last.0) {
                let i = choose|i: int| 0 <= i < head.len() && (#[trigger] head[i]).0 == last.0;
                assert(more[i].0 == more[more.len() - 1].0);
            }
        }
        assert(head.push(last) =~= more);
    }
}

/// Where the first entry with `key` stands.
pub fn find_index<V>(entries: &Vec<(i64, V)>, key: i64) -> (at: usize)
    ensures
        at == index_of(entries@, key),
        at <= entries@.len(),
{
    let mut at: usize = 0;
    while at < entries.len() && entries[at].0 != key
        invariant
            at <= entries@.len(),
            forall|i: int| 0 <= i < at ==> entries@[i].0 != key,
        decreases entries@.len() - at,
    {
        at = at + 1;
    }
    proof {
        lemma_index_of(entries@, key, at as int);
    }
    at
}

/// What `key` stands for.
pub fn find<V: Copy>(entries: &Vec<(i64, V)>, key: i64) -> (r: Option<V>)
    ensures
        r == lookup(entries@, key),
{
    let at: usize = find_index(entries, key);
    if at < entries.len() {
        Some(entries[at].1)
    } else {
        None
    }
}

/// Makes `key` stand for `value`.
pub fn set_key<V>(entries: &mut Vec<(i64, V)>, key: i64, value: V)
    ensures
        final(entries)@ == put(old(entries)@, key, value),
{
    let at: usize = find_index(entries, key);
    if at < entries.len() {
        entries.set(at, (key, value));
    } else {
        entries.push((key, value));
    }
}

} // verus!
