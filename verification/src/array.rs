//! Ordered associative arrays with integer and string keys, keeping insertion order like
//! PHP arrays. The values are of any type `V`.

use vstd::prelude::*;
use crate::string::SmartString;

verus! {

/// Key of an array: an integer or a string.
#[derive(Debug)]
pub enum ArrayKey {
    Int(i64),
    String(SmartString),
}

/// Two keys are the same key: equal integers, or strings with the same characters.
pub open spec fn same_key(a: ArrayKey, b: ArrayKey) -> bool {
    match (a, b) {
        (ArrayKey::Int(x), ArrayKey::Int(y)) => x == y,
        (ArrayKey::String(s), ArrayKey::String(t)) => s.view() == t.view(),
        _ => false,
    }
}

impl ArrayKey {
    /// An integer key.
    pub fn integer(i: i64) -> (r: Self)
        ensures
            r == ArrayKey::Int(i),
    {
        ArrayKey::Int(i)
    }

    /// A string key.
    pub fn string(s: &str) -> (r: Self)
        ensures
            r matches ArrayKey::String(t) && t.view() == s@,
    {
        ArrayKey::String(SmartString::from_str(s))
    }

    /// Whether this is an integer key.
    pub fn is_int(&self) -> (r: bool)
        ensures
            r == (self is Int),
    {
        match self {
            ArrayKey::Int(_) => true,
            _ => false,
        }
    }

    /// The integer, for an integer key.
    pub fn as_int(&self) -> (r: Option<i64>)
        ensures
            match *self {
                ArrayKey::Int(i) => r == Some(i),
                _ => r is None,
            },
    {
        match self {
            ArrayKey::Int(i) => Some(*i),
            _ => None,
        }
    }

    /// Whether both keys are the same key.
    pub fn same(&self, other: &ArrayKey) -> (r: bool)
        ensures
            r == same_key(*self, *other),
    {
        match (self, other) {
            (ArrayKey::Int(x), ArrayKey::Int(y)) => *x == *y,
            (ArrayKey::String(s), ArrayKey::String(t)) => s.equals(t),
            _ => false,
        }
    }

    /// A copy of the key.
    pub fn duplicate(&self) -> (r: Self)
        ensures
            same_key(r, *self),
            r is Int <==> self is Int,
    {
        match self {
            ArrayKey::Int(i) => ArrayKey::Int(*i),
            ArrayKey::String(s) => ArrayKey::String(s.clone()),
        }
    }
}

impl Clone for ArrayKey {
    fn clone(&self) -> (r: Self)
        ensures
            same_key(r, *self),
    {
        self.duplicate()
    }
}

impl PartialEq for ArrayKey {
    fn eq(&self, other: &Self) -> (r: bool) {
        self.same(other)
    }
}

impl vstd::std_specs::cmp::PartialEqSpecImpl for ArrayKey {
    open spec fn obeys_eq_spec() -> bool {
        true
    }

    open spec fn eq_spec(&self, other: &Self) -> bool {
        same_key(*self, *other)
    }
}

impl Eq for ArrayKey {
}

impl From<i64> for ArrayKey {
    fn from(i: i64) -> (r: Self) {
        ArrayKey::Int(i)
    }
}

impl vstd::std_specs::convert::FromSpecImpl<i64> for ArrayKey {
    open spec fn obeys_from_spec() -> bool {
        true
    }

    open spec fn from_spec(i: i64) -> Self {
        ArrayKey::Int(i)
    }
}

impl From<SmartString> for ArrayKey {
    fn from(s: SmartString) -> (r: Self) {
        ArrayKey::String(s)
    }
}

impl vstd::std_specs::convert::FromSpecImpl<SmartString> for ArrayKey {
    open spec fn obeys_from_spec() -> bool {
        true
    }

    open spec fn from_spec(s: SmartString) -> Self {
        ArrayKey::String(s)
    }
}

/// The index of the entry with key `k`.
pub open spec fn key_at<V>(e: Seq<(ArrayKey, V)>, k: ArrayKey, i: int) -> bool {
    0 <= i < e.len() && same_key(e[i].0, k)
}

/// The key occurs among the entries.
pub open spec fn has_key<V>(e: Seq<(ArrayKey, V)>, k: ArrayKey) -> bool {
    exists|i: int| key_at(e, k, i)
}

/// The index of the entry with key `k` (meaningful when there is one).
pub open spec fn index_of_key<V>(e: Seq<(ArrayKey, V)>, k: ArrayKey) -> int {
    choose|i: int| key_at(e, k, i)
}

/// The value stored under `k`, if any.
pub open spec fn value_at<V>(e: Seq<(ArrayKey, V)>, k: ArrayKey) -> Option<V> {
    if has_key(e, k) { Some(e[index_of_key(e, k)].1) } else { None }
}

/// Entry `i` has a string key with characters `s`.
pub open spec fn str_key_at<V>(e: Seq<(ArrayKey, V)>, s: Seq<char>, i: int) -> bool {
    0 <= i < e.len() && (e[i].0 matches ArrayKey::String(t) && t.view() == s)
}

/// A string key with characters `s` occurs among the entries.
pub open spec fn has_str_key<V>(e: Seq<(ArrayKey, V)>, s: Seq<char>) -> bool {
    exists|i: int| str_key_at(e, s, i)
}

/// The index of the entry with string key `s` (meaningful when there is one).
pub open spec fn index_of_str_key<V>(e: Seq<(ArrayKey, V)>, s: Seq<char>) -> int {
    choose|i: int| str_key_at(e, s, i)
}

/// The value stored under string key `s`, if any.
pub open spec fn value_at_str<V>(e: Seq<(ArrayKey, V)>, s: Seq<char>) -> Option<V> {
    if has_str_key(e, s) { Some(e[index_of_str_key(e, s)].1) } else { None }
}

/// The integer keys, in order.
pub open spec fn int_keys_of<V>(e: Seq<(ArrayKey, V)>) -> Seq<i64>
    decreases e.len(),
{
    if e.len() == 0 {
        Seq::empty()
    } else {
        match e.last().0 {
            ArrayKey::Int(k) => int_keys_of(e.drop_last()).push(k),
            _ => int_keys_of(e.drop_last()),
        }
    }
}

/// One step of a merge: an entry with an integer key is appended under the next integer
/// key, an entry with a string key is stored under that key.
pub open spec fn merge_step<V>(e: Seq<(ArrayKey, V)>, next: int, entry: (ArrayKey, V)) -> (Seq<(ArrayKey, V)>, int) {
    match entry.0 {
        ArrayKey::Int(_) => (e.push((ArrayKey::Int(next as i64), entry.1)), next + 1),
        ArrayKey::String(_) => (entries_after_set(e, entry.0, entry.1), next),
    }
}

/// Entries and next integer key after merging the entries `other`, in order.
pub open spec fn merged<V>(e: Seq<(ArrayKey, V)>, next: int, other: Seq<(ArrayKey, V)>) -> (Seq<(ArrayKey, V)>, int)
    decreases other.len(),
{
    if other.len() == 0 {
        (e, next)
    } else {
        let prev = merged(e, next, other.drop_last());
        merge_step(prev.0, prev.1, other.last())
    }
}

/// `a` has the entries of `b` up to copies: the same keys, and each value the same or a
/// clone of it.
pub open spec fn similar<V: Clone>(a: Seq<(ArrayKey, V)>, b: Seq<(ArrayKey, V)>) -> bool {
    &&& a.len() == b.len()
    &&& forall|i: int| 0 <= i < a.len() ==> same_key(#[trigger] a[i].0, b[i].0) && (a[i].1 == b[i].1 || cloned(b[i].1, a[i].1))
}

proof fn lemma_similar_keys<V: Clone>(a: Seq<(ArrayKey, V)>, b: Seq<(ArrayKey, V)>, k: ArrayKey)
    requires
        similar(a, b),
        keys_unique(a),
    ensures
        keys_unique(b),
        has_key(a, k) == has_key(b, k),
        has_key(a, k) ==> index_of_key(a, k) == index_of_key(b, k),
{
    assert forall|i: int, j: int| 0 <= i < j < b.len() implies !same_key(#[trigger] b[i].0, #[trigger] b[j].0) by {
        assert(same_key(a[i].0, b[i].0) && same_key(a[j].0, b[j].0));
        assert(!same_key(a[i].0, a[j].0));
    }
    assert forall|i: int| key_at(a, k, i) <==> key_at(b, k, i) by {
        if 0 <= i < a.len() {
            assert(same_key(a[i].0, b[i].0));
        }
    }
    if has_key(a, k) {
        let i = index_of_key(a, k);
        lemma_key_index(a, k, i);
        lemma_key_index(b, k, i);
    }
}

proof fn lemma_merge_string_step<V: Clone>(
    cur: Seq<(ArrayKey, V)>,
    spec: Seq<(ArrayKey, V)>,
    new: Seq<(ArrayKey, V)>,
    k: ArrayKey,
    s: Seq<char>,
    vs: V,
    vn: V,
)
    requires
        similar(cur, spec),
        keys_unique(cur),
        k matches ArrayKey::String(t) && t.view() == s,
        cloned(vs, vn),
        has_str_key(cur, s) ==> new == cur.update(index_of_str_key(cur, s), (cur[index_of_str_key(cur, s)].0, vn)),
        !has_str_key(cur, s) ==> {
            &&& new.len() == cur.len() + 1
            &&& new.drop_last() == cur
            &&& new.last().0 matches ArrayKey::String(t) && t.view() == s
            &&& new.last().1 == vn
        },
    ensures
        similar(new, entries_after_set(spec, k, vs)),
{
    lemma_similar_keys(cur, spec, k);
    lemma_str_key(cur, k, s);
    let target = entries_after_set(spec, k, vs);
    if has_key(cur, k) {
        let idx = index_of_key(cur, k);
        assert(target == spec.update(idx, (spec[idx].0, vs)));
        assert forall|q: int| 0 <= q < new.len() implies same_key(#[trigger] new[q].0, target[q].0)
            && (new[q].1 == target[q].1 || cloned(target[q].1, new[q].1)) by {
            assert(same_key(cur[q].0, spec[q].0));
        }
    } else {
        assert(target == spec.push((k, vs)));
        assert forall|q: int| 0 <= q < new.len() implies same_key(#[trigger] new[q].0, target[q].0)
            && (new[q].1 == target[q].1 || cloned(target[q].1, new[q].1)) by {
            if q < cur.len() {
                assert(new[q] == new.drop_last()[q]);
                assert(same_key(cur[q].0, spec[q].0));
            }
        }
    }
}

/// Reading a key back after storing under it gives the stored value, and storing under
/// one key leaves the values of every other key as they were.
pub proof fn law_get_after_set<V>(e: Seq<(ArrayKey, V)>, k: ArrayKey, v: V, other: ArrayKey)
    requires
        keys_unique(e),
    ensures
        value_at(entries_after_set(e, k, v), k) == Some(v),
        !same_key(other, k) ==> value_at(entries_after_set(e, k, v), other) == value_at(e, other),
{
    let after = entries_after_set(e, k, v);
    if has_key(e, k) {
        let i = index_of_key(e, k);
        lemma_key_index(e, k, i);
        assert(keys_unique(after)) by {
            assert forall|a: int, b: int| 0 <= a < b < after.len() implies !same_key(#[trigger] after[a].0, #[trigger] after[b].0) by {
                assert(after[a].0 == e[a].0 && after[b].0 == e[b].0);
            }
        }
        assert(key_at(after, k, i));
        lemma_key_index(after, k, i);
        if !same_key(other, k) && has_key(e, other) {
            let j = index_of_key(e, other);
            lemma_key_index(e, other, j);
            assert(j != i);
            assert(key_at(after, other, j));
            lemma_key_index(after, other, j);
        }
        if !same_key(other, k) && !has_key(e, other) {
            assert forall|j: int| !key_at(after, other, j) by {
                if 0 <= j < after.len() {
                    assert(after[j].0 == e[j].0);
                    assert(!key_at(e, other, j));
                }
            }
        }
    } else {
        let n = e.len() as int;
        assert(keys_unique(after)) by {
            assert forall|a: int, b: int| 0 <= a < b < after.len() implies !same_key(#[trigger] after[a].0, #[trigger] after[b].0) by {
                if b == n {
                    assert(!key_at(e, k, a));
                    assert(after[a].0 == e[a].0);
                } else {
                    assert(after[a].0 == e[a].0 && after[b].0 == e[b].0);
                }
            }
        }
        assert(key_at(after, k, n));
        lemma_key_index(after, k, n);
        if !same_key(other, k) {
            if has_key(e, other) {
                let j = index_of_key(e, other);
                lemma_key_index(e, other, j);
                assert(key_at(after, other, j));
                lemma_key_index(after, other, j);
            } else {
                assert forall|j: int| !key_at(after, other, j) by {
                    if 0 <= j < n {
                        assert(after[j].0 == e[j].0);
                        assert(!key_at(e, other, j));
                    }
                }
            }
        }
    }
}

proof fn lemma_merged_next<V>(e: Seq<(ArrayKey, V)>, next: int, other: Seq<(ArrayKey, V)>)
    ensures
        merged(e, next, other).1 == next + int_keys_of(other).len(),
    decreases other.len(),
{
    if other.len() > 0 {
        lemma_merged_next(e, next, other.drop_last());
    }
}

proof fn lemma_int_keys_prefix<V>(e: Seq<(ArrayKey, V)>, k: int)
    requires
        0 <= k <= e.len(),
    ensures
        int_keys_of(e.subrange(0, k)).len() <= int_keys_of(e).len(),
    decreases e.len() - k,
{
    if k < e.len() {
        lemma_int_keys_prefix(e, k + 1);
        assert(e.subrange(0, k + 1).drop_last() =~= e.subrange(0, k));
    } else {
        assert(e.subrange(0, k) =~= e);
    }
}

/// No key occurs twice.
pub open spec fn keys_unique<V>(e: Seq<(ArrayKey, V)>) -> bool {
    forall|i: int, j: int| 0 <= i < j < e.len() ==> !same_key(#[trigger] e[i].0, #[trigger] e[j].0)
}

/// Every integer key is below `next`.
pub open spec fn ints_below<V>(e: Seq<(ArrayKey, V)>, next: i64) -> bool {
    forall|i: int| 0 <= i < e.len() ==> (#[trigger] e[i].0 matches ArrayKey::Int(k) ==> k < next)
}

/// The next integer key after storing under `k`: one past `k` when `k` is an integer
/// key at or past it.
pub open spec fn next_after(next: i64, k: ArrayKey) -> int {
    match k {
        ArrayKey::Int(i) => if i >= next { i + 1 } else { next as int },
        _ => next as int,
    }
}

/// The entries after storing `v` under `k`: the value replaced in place when the key is
/// there (the stored key is kept), else a new entry at the end.
pub open spec fn entries_after_set<V>(e: Seq<(ArrayKey, V)>, k: ArrayKey, v: V) -> Seq<(ArrayKey, V)> {
    if has_key(e, k) {
        e.update(index_of_key(e, k), (e[index_of_key(e, k)].0, v))
    } else {
        e.push((k, v))
    }
}

/// The entries after removing key `k`: its entry taken out when it is there, later
/// entries moving up.
pub open spec fn entries_after_remove<V>(e: Seq<(ArrayKey, V)>, k: ArrayKey) -> Seq<(ArrayKey, V)> {
    if has_key(e, k) {
        e.remove(index_of_key(e, k))
    } else {
        e
    }
}

/// After removing a key it is gone, and every other key keeps its value.
pub proof fn law_get_after_remove<V>(e: Seq<(ArrayKey, V)>, k: ArrayKey, other: ArrayKey)
    requires
        keys_unique(e),
    ensures
        value_at(entries_after_remove(e, k), k) is None,
        !same_key(other, k) ==> value_at(entries_after_remove(e, k), other) == value_at(e, other),
{
    if has_key(e, k) {
        let i = index_of_key(e, k);
        lemma_key_index(e, k, i);
        let after = e.remove(i);
        assert forall|j: int| !key_at(after, k, j) by {
            if 0 <= j < after.len() {
                let j0 = if j < i { j } else { j + 1 };
                assert(after[j] == e[j0]);
                if j0 < i {
                    assert(!same_key(e[j0].0, e[i].0));
                } else {
                    assert(!same_key(e[i].0, e[j0].0));
                }
            }
        }
        if !same_key(other, k) {
            if has_key(e, other) {
                let j = index_of_key(e, other);
                lemma_key_index(e, other, j);
                assert(j != i);
                let j1 = if j < i { j } else { j - 1 };
                assert(after[j1] == e[j]);
                assert(keys_unique(after)) by {
                    assert forall|a: int, b: int| 0 <= a < b < after.len() implies !same_key(#[trigger] after[a].0, #[trigger] after[b].0) by {
                        let a0 = if a < i { a } else { a + 1 };
                        let b0 = if b < i { b } else { b + 1 };
                        assert(after[a] == e[a0] && after[b] == e[b0]);
                    }
                }
                assert(key_at(after, other, j1));
                lemma_key_index(after, other, j1);
            } else {
                assert forall|j: int| !key_at(after, other, j) by {
                    if 0 <= j < after.len() {
                        let j0 = if j < i { j } else { j + 1 };
                        assert(after[j] == e[j0]);
                        assert(!key_at(e, other, j0));
                    }
                }
            }
        }
    }
}

/// Pushing stores the value under the next integer key, as a store under that key would:
/// with every integer key below it, the key is new and goes at the end.
pub proof fn law_push_is_set<V>(e: Seq<(ArrayKey, V)>, next: i64, v: V)
    requires
        ints_below(e, next),
    ensures
        e.push((ArrayKey::Int(next), v)) == entries_after_set(e, ArrayKey::Int(next), v),
{
    assert forall|i: int| !key_at(e, ArrayKey::Int(next), i) by {
        if 0 <= i < e.len() {
            assert(e[i].0 matches ArrayKey::Int(k) ==> k < next);
        }
    }
}

proof fn lemma_key_index<V>(e: Seq<(ArrayKey, V)>, k: ArrayKey, i: int)
    requires
        keys_unique(e),
        key_at(e, k, i),
    ensures
        has_key(e, k),
        index_of_key(e, k) == i,
        value_at(e, k) == Some(e[i].1),
{
    let c = index_of_key(e, k);
    assert(key_at(e, k, c));
    if c != i {
        if c < i {
            assert(!same_key(e[c].0, e[i].0));
        } else {
            assert(!same_key(e[i].0, e[c].0));
        }
        assert(same_key(e[c].0, e[i].0)) by {
            lemma_same_key_trans(e[c].0, k, e[i].0);
        }
    }
}

proof fn lemma_str_key<V>(e: Seq<(ArrayKey, V)>, k: ArrayKey, s: Seq<char>)
    requires
        keys_unique(e),
        k matches ArrayKey::String(t) && t.view() == s,
    ensures
        has_key(e, k) == has_str_key(e, s),
        has_key(e, k) ==> index_of_key(e, k) == index_of_str_key(e, s),
        value_at(e, k) == value_at_str(e, s),
{
    assert forall|i: int| key_at(e, k, i) <==> str_key_at(e, s, i) by {}
    if has_key(e, k) {
        let i = index_of_key(e, k);
        lemma_key_index(e, k, i);
        let j = index_of_str_key(e, s);
        assert(str_key_at(e, s, j));
        assert(key_at(e, k, j));
        lemma_key_index(e, k, j);
    }
}

proof fn lemma_same_key_trans(a: ArrayKey, b: ArrayKey, c: ArrayKey)
    requires
        same_key(a, b),
        same_key(c, b),
    ensures
        same_key(a, c),
{
}

/// PHP-style ordered array: entries in insertion order, one per key, and the next
/// integer key for pushes.
#[derive(Debug, Clone)]
pub struct PhpArray<V> {
    entries: Vec<(ArrayKey, V)>,
    next_int_key: i64,
}

impl<V> PhpArray<V> {
    /// The entries, in order.
    pub closed spec fn entries(&self) -> Seq<(ArrayKey, V)> {
        self.entries@
    }

    /// The key the next push uses.
    pub closed spec fn next_key(&self) -> i64 {
        self.next_int_key
    }

    /// Keys are unique and integer keys are below the next push key.
    pub open spec fn wf(&self) -> bool {
        keys_unique(self.entries()) && ints_below(self.entries(), self.next_key())
    }

    /// An empty array.
    pub fn new() -> (r: Self)
        ensures
            r.wf(),
            r.entries().len() == 0,
            r.next_key() == 0,
    {
        PhpArray { entries: Vec::new(), next_int_key: 0 }
    }

    /// An empty array with room for `capacity` entries.
    pub fn with_capacity(capacity: usize) -> (r: Self)
        ensures
            r.wf(),
            r.entries().len() == 0,
            r.next_key() == 0,
    {
        PhpArray { entries: Vec::with_capacity(capacity), next_int_key: 0 }
    }

    /// Number of entries.
    pub fn len(&self) -> (r: usize)
        ensures
            r == self.entries().len(),
    {
        self.entries.len()
    }

    /// Whether there are no entries.
    pub fn is_empty(&self) -> (r: bool)
        ensures
            r == (self.entries().len() == 0),
    {
        self.entries.len() == 0
    }

    /// Index of the entry with key `key`.
    fn find(&self, key: &ArrayKey) -> (r: Option<usize>)
        requires
            self.wf(),
        ensures
            r matches Some(i) ==> key_at(self.entries(), *key, i as int) && index_of_key(self.entries(), *key) == i,
            r is None <==> !has_key(self.entries(), *key),
    {
        let n = self.entries.len();
        let mut i: usize = 0;
        while i < n
            invariant
                self.wf(),
                n == self.entries@.len(),
                0 <= i <= n,
                forall|j: int| 0 <= j < i ==> !same_key(self.entries@[j].0, *key),
            decreases n - i,
        {
            if self.entries[i].0.same(key) {
                proof {
                    lemma_key_index(self.entries@, *key, i as int);
                }
                return Some(i);
            }
            i = i + 1;
        }
        None
    }

    /// The value stored under `key`.
    pub fn get(&self, key: &ArrayKey) -> (r: Option<&V>)
        requires
            self.wf(),
        ensures
            match value_at(self.entries(), *key) {
                Some(v) => r == Some(&v),
                None => r is None,
            },
    {
        match self.find(key) {
            Some(i) => {
                proof {
                    lemma_key_index(self.entries@, *key, i as int);
                }
                Some(&self.entries[i].1)
            },
            None => None,
        }
    }

    /// The value stored under integer key `key`.
    pub fn get_int(&self, key: i64) -> (r: Option<&V>)
        requires
            self.wf(),
        ensures
            match value_at(self.entries(), ArrayKey::Int(key)) {
                Some(v) => r == Some(&v),
                None => r is None,
            },
    {
        let k = ArrayKey::Int(key);
        self.get(&k)
    }

    /// The value stored under string key `key`.
    pub fn get_str(&self, key: &str) -> (r: Option<&V>)
        requires
            self.wf(),
        ensures
            match value_at_str(self.entries(), key@) {
                Some(v) => r == Some(&v),
                None => r is None,
            },
    {
        let k = ArrayKey::string(key);
        proof {
            lemma_str_key(self.entries(), k, key@);
        }
        self.get(&k)
    }

    /// Stores `value` under `key`; returns the value that was stored there, if any. An
    /// integer key at or past the next push key moves that key past it.
    pub fn set(&mut self, key: ArrayKey, value: V) -> (r: Option<V>)
        requires
            old(self).wf(),
            key matches ArrayKey::Int(i) ==> (i >= old(self).next_key() ==> i < i64::MAX),
        ensures
            final(self).wf(),
            final(self).entries() == entries_after_set(old(self).entries(), key, value),
            final(self).next_key() == next_after(old(self).next_key(), key),
            r == value_at(old(self).entries(), key),
    {
        let ghost e0 = self.entries@;
        let ghost k0 = key;
        if let ArrayKey::Int(i) = &key {
            if *i >= self.next_int_key {
                self.next_int_key = *i + 1;
            }
        }
        match self.find(&key) {
            Some(idx) => {
                proof {
                    lemma_key_index(e0, k0, idx as int);
                }
                let (old_key, old_value) = self.entries.remove(idx);
                self.entries.insert(idx, (old_key, value));
                proof {
                    assert(self.entries@ =~= e0.update(idx as int, (e0[idx as int].0, value)));
                    assert forall|a: int, b: int| 0 <= a < b < self.entries@.len() implies
                        !same_key(#[trigger] self.entries@[a].0, #[trigger] self.entries@[b].0) by {
                        assert(!same_key(e0[a].0, e0[b].0));
                    }
                    assert forall|a: int| 0 <= a < self.entries@.len() implies
                        (#[trigger] self.entries@[a].0 matches ArrayKey::Int(k) ==> k < self.next_int_key) by {
                        assert(e0[a].0 == self.entries@[a].0);
                    }
                }
                Some(old_value)
            },
            None => {
                self.entries.push((key, value));
                proof {
                    assert forall|a: int, b: int| 0 <= a < b < self.entries@.len() implies
                        !same_key(#[trigger] self.entries@[a].0, #[trigger] self.entries@[b].0) by {
                        if b == e0.len() {
                            if same_key(e0[a].0, k0) {
                                assert(key_at(e0, k0, a));
                            }
                        } else {
                            assert(!same_key(e0[a].0, e0[b].0));
                        }
                    }
                    assert forall|a: int| 0 <= a < self.entries@.len() implies
                        (#[trigger] self.entries@[a].0 matches ArrayKey::Int(k) ==> k < self.next_int_key) by {
                        if a < e0.len() {
                            assert(e0[a].0 == self.entries@[a].0);
                        }
                    }
                }
                None
            },
        }
    }

    /// Stores `value` under integer key `key`.
    pub fn set_int(&mut self, key: i64, value: V) -> (r: Option<V>)
        requires
            old(self).wf(),
            key >= old(self).next_key() ==> key < i64::MAX,
        ensures
            final(self).wf(),
            final(self).entries() == entries_after_set(old(self).entries(), ArrayKey::Int(key), value),
            final(self).next_key() == next_after(old(self).next_key(), ArrayKey::Int(key)),
            r == value_at(old(self).entries(), ArrayKey::Int(key)),
    {
        self.set(ArrayKey::Int(key), value)
    }

    /// Stores `value` under string key `key`.
    pub fn set_str(&mut self, key: &str, value: V) -> (r: Option<V>)
        requires
            old(self).wf(),
        ensures
            final(self).wf(),
            r == value_at_str(old(self).entries(), key@),
            has_str_key(old(self).entries(), key@) ==> {
                let i = index_of_str_key(old(self).entries(), key@);
                final(self).entries() == old(self).entries().update(i, (old(self).entries()[i].0, value))
            },
            !has_str_key(old(self).entries(), key@) ==> {
                &&& final(self).entries().len() == old(self).entries().len() + 1
                &&& final(self).entries().drop_last() == old(self).entries()
                &&& final(self).entries().last().0 matches ArrayKey::String(t) && t.view() == key@
                &&& final(self).entries().last().1 == value
            },
            final(self).next_key() == old(self).next_key(),
    {
        let k = ArrayKey::string(key);
        proof {
            lemma_str_key(self.entries(), k, key@);
        }
        let ghost e0 = self.entries();
        let ghost kg = k;
        let r = self.set(k, value);
        proof {
            if !has_key(e0, kg) {
                assert(self.entries().drop_last() =~= e0);
            }
        }
        r
    }

    /// The integer key the next push uses.
    pub fn next_index(&self) -> (r: i64)
        ensures
            r == self.next_key(),
    {
        self.next_int_key
    }

    /// Appends `value` under the next integer key, and moves that key on by one.
    pub fn push(&mut self, value: V)
        requires
            old(self).wf(),
            old(self).next_key() < i64::MAX,
        ensures
            final(self).wf(),
            final(self).entries() == old(self).entries().push((ArrayKey::Int(old(self).next_key()), value)),
            final(self).next_key() == old(self).next_key() + 1,
    {
        let ghost e0 = self.entries@;
        let key = ArrayKey::Int(self.next_int_key);
        self.next_int_key = self.next_int_key + 1;
        self.entries.push((key, value));
        proof {
            assert forall|a: int, b: int| 0 <= a < b < self.entries@.len() implies
                !same_key(#[trigger] self.entries@[a].0, #[trigger] self.entries@[b].0) by {
                if b == e0.len() {
                    assert(e0[a].0 == self.entries@[a].0);
                } else {
                    assert(!same_key(e0[a].0, e0[b].0));
                }
            }
            assert forall|a: int| 0 <= a < self.entries@.len() implies
                (#[trigger] self.entries@[a].0 matches ArrayKey::Int(k) ==> k < self.next_int_key) by {
                if a < e0.len() {
                    assert(e0[a].0 == self.entries@[a].0);
                }
            }
        }
    }

    /// Removes the last entry and returns its value.
    pub fn pop(&mut self) -> (r: Option<V>)
        requires
            old(self).wf(),
        ensures
            final(self).wf(),
            old(self).entries().len() == 0 ==> r is None && final(self).entries() == old(self).entries(),
            old(self).entries().len() > 0 ==> {
                &&& r == Some(old(self).entries().last().1)
                &&& final(self).entries() == old(self).entries().drop_last()
            },
            final(self).next_key() == old(self).next_key(),
    {
        let ghost e0 = self.entries@;
        match self.entries.pop() {
            Some(entry) => {
                proof {
                    assert forall|a: int, b: int| 0 <= a < b < self.entries@.len() implies
                        !same_key(#[trigger] self.entries@[a].0, #[trigger] self.entries@[b].0) by {
                        assert(!same_key(e0[a].0, e0[b].0));
                    }
                    assert forall|a: int| 0 <= a < self.entries@.len() implies
                        (#[trigger] self.entries@[a].0 matches ArrayKey::Int(k) ==> k < self.next_int_key) by {
                        assert(e0[a].0 == self.entries@[a].0);
                    }
                }
                Some(entry.1)
            },
            None => None,
        }
    }

    /// Removes the entry with key `key` and returns its value; later entries move up.
    pub fn remove(&mut self, key: &ArrayKey) -> (r: Option<V>)
        requires
            old(self).wf(),
        ensures
            final(self).wf(),
            r == value_at(old(self).entries(), *key),
            final(self).entries() == entries_after_remove(old(self).entries(), *key),
            final(self).next_key() == old(self).next_key(),
    {
        let ghost e0 = self.entries@;
        match self.find(key) {
            Some(idx) => {
                proof {
                    lemma_key_index(e0, *key, idx as int);
                }
                let entry = self.entries.remove(idx);
                proof {
                    assert forall|a: int, b: int| 0 <= a < b < self.entries@.len() implies
                        !same_key(#[trigger] self.entries@[a].0, #[trigger] self.entries@[b].0) by {
                        let a0 = if a < idx { a } else { a + 1 };
                        let b0 = if b < idx { b } else { b + 1 };
                        assert(self.entries@[a] == e0[a0]);
                        assert(self.entries@[b] == e0[b0]);
                        assert(!same_key(e0[a0].0, e0[b0].0));
                    }
                    assert forall|a: int| 0 <= a < self.entries@.len() implies
                        (#[trigger] self.entries@[a].0 matches ArrayKey::Int(k) ==> k < self.next_int_key) by {
                        let a0 = if a < idx { a } else { a + 1 };
                        assert(self.entries@[a] == e0[a0]);
                    }
                }
                Some(entry.1)
            },
            None => None,
        }
    }

    /// Whether an entry has key `key`.
    pub fn contains_key(&self, key: &ArrayKey) -> (r: bool)
        requires
            self.wf(),
        ensures
            r == has_key(self.entries(), *key),
    {
        self.find(key).is_some()
    }

    /// The keys, in order.
    pub fn keys(&self) -> (r: Vec<&ArrayKey>)
        ensures
            r@.len() == self.entries().len(),
            forall|i: int| 0 <= i < r@.len() ==> *r@[i] == self.entries()[i].0,
    {
        let n = self.entries.len();
        let mut out: Vec<&ArrayKey> = Vec::new();
        let mut i: usize = 0;
        while i < n
            invariant
                n == self.entries@.len(),
                0 <= i <= n,
                out@.len() == i,
                forall|j: int| 0 <= j < i ==> *out@[j] == self.entries@[j].0,
            decreases n - i,
        {
            out.push(&self.entries[i].0);
            i = i + 1;
        }
        out
    }

    /// The values, in order.
    pub fn values(&self) -> (r: Vec<&V>)
        ensures
            r@.len() == self.entries().len(),
            forall|i: int| 0 <= i < r@.len() ==> *r@[i] == self.entries()[i].1,
    {
        let n = self.entries.len();
        let mut out: Vec<&V> = Vec::new();
        let mut i: usize = 0;
        while i < n
            invariant
                n == self.entries@.len(),
                0 <= i <= n,
                out@.len() == i,
                forall|j: int| 0 <= j < i ==> *out@[j] == self.entries@[j].1,
            decreases n - i,
        {
            out.push(&self.entries[i].1);
            i = i + 1;
        }
        out
    }

    /// The entries as key and value, in order.
    pub fn iter(&self) -> (r: Vec<(&ArrayKey, &V)>)
        ensures
            r@.len() == self.entries().len(),
            forall|i: int| 0 <= i < r@.len() ==> *r@[i].0 == self.entries()[i].0 && *r@[i].1 == self.entries()[i].1,
    {
        let n = self.entries.len();
        let mut out: Vec<(&ArrayKey, &V)> = Vec::new();
        let mut i: usize = 0;
        while i < n
            invariant
                n == self.entries@.len(),
                0 <= i <= n,
                out@.len() == i,
                forall|j: int| 0 <= j < i ==> *out@[j].0 == self.entries@[j].0 && *out@[j].1 == self.entries@[j].1,
            decreases n - i,
        {
            let e = &self.entries[i];
            out.push((&e.0, &e.1));
            i = i + 1;
        }
        out
    }

    /// Removes every entry and starts integer keys again from 0.
    pub fn clear(&mut self)
        ensures
            final(self).wf(),
            final(self).entries().len() == 0,
            final(self).next_key() == 0,
    {
        self.entries.clear();
        self.next_int_key = 0;
    }

    /// The integer keys, in order.
    pub fn int_keys(&self) -> (r: Vec<i64>)
        ensures
            r@ == int_keys_of(self.entries()),
    {
        let n = self.entries.len();
        let mut out: Vec<i64> = Vec::new();
        let mut i: usize = 0;
        while i < n
            invariant
                n == self.entries@.len(),
                0 <= i <= n,
                out@ == int_keys_of(self.entries@.subrange(0, i as int)),
            decreases n - i,
        {
            proof {
                assert(self.entries@.subrange(0, i + 1).drop_last() =~= self.entries@.subrange(0, i as int));
            }
            match &self.entries[i].0 {
                ArrayKey::Int(k) => {
                    out.push(*k);
                },
                ArrayKey::String(_) => {},
            }
            i = i + 1;
        }
        proof {
            assert(self.entries@.subrange(0, n as int) =~= self.entries@);
        }
        out
    }

    /// Reverses the order of the entries.
    pub fn reverse(&mut self)
        requires
            old(self).wf(),
        ensures
            final(self).wf(),
            final(self).entries() == old(self).entries().reverse(),
            final(self).next_key() == old(self).next_key(),
    {
        let ghost e0 = self.entries@;
        let mut out: Vec<(ArrayKey, V)> = Vec::new();
        while self.entries.len() > 0
            invariant
                self.next_int_key == old(self).next_int_key,
                ints_below(e0, self.next_int_key),
                self.entries@.len() + out@.len() == e0.len(),
                self.entries@ == e0.subrange(0, self.entries@.len() as int),
                out@ == e0.subrange(self.entries@.len() as int, e0.len() as int).reverse(),
            decreases self.entries@.len(),
        {
            let entry = self.entries.pop().unwrap();
            out.push(entry);
            proof {
                let m = self.entries@.len() as int;
                assert(self.entries@ =~= e0.subrange(0, m));
                assert(out@ =~= e0.subrange(m, e0.len() as int).reverse());
            }
        }
        self.entries = out;
        proof {
            assert(e0.subrange(0, e0.len() as int) =~= e0);
            let n = e0.len();
            assert forall|a: int, b: int| 0 <= a < b < n implies
                !same_key(#[trigger] self.entries@[a].0, #[trigger] self.entries@[b].0) by {
                assert(self.entries@[a] == e0[n - 1 - a]);
                assert(self.entries@[b] == e0[n - 1 - b]);
                assert(!same_key(e0[n - 1 - b].0, e0[n - 1 - a].0));
            }
            assert forall|a: int| 0 <= a < n implies
                (#[trigger] self.entries@[a].0 matches ArrayKey::Int(k) ==> k < self.next_int_key) by {
                assert(self.entries@[a] == e0[n - 1 - a]);
            }
        }
    }

    /// The value stored under `key`, to change in place.
    pub fn get_mut(&mut self, key: &ArrayKey) -> (r: Option<&mut V>)
        requires
            old(self).wf(),
        ensures
            !has_key(old(self).entries(), *key) ==> r is None && final(self).entries() == old(self).entries(),
            has_key(old(self).entries(), *key) ==> (r matches Some(m) && {
                let i = index_of_key(old(self).entries(), *key);
                &&& *m == old(self).entries()[i].1
                &&& final(self).entries() == old(self).entries().update(i, (old(self).entries()[i].0, *final(m)))
            }),
            final(self).next_key() == old(self).next_key(),
            final(self).wf(),
    {
        match self.find(key) {
            Some(idx) => Some(&mut self.entries[idx].1),
            None => None,
        }
    }

    /// Merges `other` into this array (PHP `array_merge`): entries with integer keys are
    /// appended under new integer keys, entries with string keys overwrite or add that key;
    /// values are cloned.
    pub fn merge(&mut self, other: &PhpArray<V>)
        where V: Clone,
        requires
            old(self).wf(),
            old(self).next_key() + int_keys_of(other.entries()).len() <= i64::MAX,
        ensures
            final(self).wf(),
            similar(final(self).entries(), merged(old(self).entries(), old(self).next_key() as int, other.entries()).0),
            final(self).next_key() == merged(old(self).entries(), old(self).next_key() as int, other.entries()).1,
    {
        let ghost e0 = self.entries@;
        let ghost n0 = self.next_int_key as int;
        let ghost oe = other.entries@;
        let n = other.entries.len();
        proof {
            assert(oe.subrange(0, 0) =~= Seq::<(ArrayKey, V)>::empty());
            assert(similar(self.entries@, e0));
        }
        let mut i: usize = 0;
        while i < n
            invariant
                n == oe.len(),
                oe == other.entries@,
                0 <= i <= n,
                self.wf(),
                n0 + int_keys_of(oe).len() <= i64::MAX,
                similar(self.entries@, merged(e0, n0, oe.subrange(0, i as int)).0),
                self.next_int_key == merged(e0, n0, oe.subrange(0, i as int)).1,
            decreases n - i,
        {
            let ghost pre = oe.subrange(0, i as int);
            let ghost spec_state = merged(e0, n0, pre);
            let ghost cur = self.entries@;
            proof {
                assert(oe.subrange(0, i + 1).drop_last() =~= pre);
                lemma_merged_next(e0, n0, pre);
                lemma_merged_next(e0, n0, oe.subrange(0, i + 1));
                lemma_int_keys_prefix(oe, i as int + 1);
            }
            let entry = &other.entries[i];
            let v = entry.1.clone();
            match &entry.0 {
                ArrayKey::Int(_) => {
                    self.push(v);
                    proof {
                        let target = merged(e0, n0, oe.subrange(0, i + 1));
                        assert(target.0 == spec_state.0.push((ArrayKey::Int(spec_state.1 as i64), oe[i as int].1)));
                        assert forall|j: int| 0 <= j < self.entries@.len() implies same_key(#[trigger] self.entries@[j].0, target.0[j].0)
                            && (self.entries@[j].1 == target.0[j].1 || cloned(target.0[j].1, self.entries@[j].1)) by {
                            if j < cur.len() {
                                assert(self.entries@[j] == cur[j]);
                            }
                        }
                    }
                },
                ArrayKey::String(s) => {
                    let ghost k = entry.0;
                    proof {
                        lemma_similar_keys(cur, spec_state.0, k);
                        assert forall|j: int| str_key_at(cur, s.view(), j) <==> key_at(cur, k, j) by {}
                        if has_key(cur, k) {
                            let j = index_of_key(cur, k);
                            lemma_key_index(cur, k, j);
                            let j2 = index_of_str_key(cur, s.view());
                            assert(str_key_at(cur, s.view(), j2));
                            lemma_key_index(cur, k, j2);
                        }
                    }
                    self.set_str(s.as_str(), v);
                    proof {
                        let target = merged(e0, n0, oe.subrange(0, i + 1));
                        assert(target.0 == entries_after_set(spec_state.0, k, oe[i as int].1));
                        lemma_merge_string_step(cur, spec_state.0, self.entries@, k, s.view(), oe[i as int].1, v);
                    }
                },
            }
            i = i + 1;
        }
        proof {
            assert(oe.subrange(0, n as int) =~= oe);
        }
    }
}

impl<V> Default for PhpArray<V> {
    fn default() -> (r: Self)
        ensures
            r.wf(),
            r.entries().len() == 0,
            r.next_key() == 0,
    {
        PhpArray::new()
    }
}

} // verus!
