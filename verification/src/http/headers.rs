//! HTTP header collection: header names are compared case-insensitively through
//! interned ids.

use vstd::prelude::*;
use vstd::string::StringSliceAdditionalSpecFns;
use crate::bytes::{
    bytes_eq, eq_ignore_ascii_case, eq_ignore_case, parse_usize, seq_lower, spec_parse_usize,
    to_lower_vec,
};
use crate::text::{ascii_bytes, lemma_ascii_str};
use crate::intern::{InternId, DYNAMIC_START};

verus! {

/// Largest number of distinct header names one collection can intern.
pub const MAX_NAMES: u32 = 0xFFFF_FF00;

/// HTTP headers in insertion order, at most one value per name.
#[derive(Debug)]
pub struct Headers<'a> {
    entries: Vec<(InternId, &'a str)>,
    names: Vec<Vec<u8>>,
}

/// Index of the first entry with id `id`.
pub open spec fn entry_at<'a>(e: Seq<(InternId, &'a str)>, id: InternId, k: int) -> bool {
    &&& 0 <= k < e.len()
    &&& e[k].0 == id
    &&& forall|j: int| 0 <= j < k ==> e[j].0 != id
}

/// The value stored under id `id`, if any.
pub open spec fn value_of<'a>(e: Seq<(InternId, &'a str)>, id: InternId) -> Option<&'a str> {
    if exists|k: int| entry_at(e, id, k) {
        Some(e[choose|k: int| entry_at(e, id, k)].1)
    } else {
        None
    }
}

/// `content-length`
pub open spec fn content_length_name() -> Seq<u8> {
    ascii_bytes("content-length"@)
}

/// `content-type`
pub open spec fn content_type_name() -> Seq<u8> {
    ascii_bytes("content-type"@)
}

/// `connection`
pub open spec fn connection_name() -> Seq<u8> {
    ascii_bytes("connection"@)
}

/// `close`
pub open spec fn close_token() -> Seq<u8> {
    ascii_bytes("close"@)
}

/// Entry ids are pairwise distinct.
pub open spec fn distinct_ids<'a>(e: Seq<(InternId, &'a str)>) -> bool {
    forall|i: int, j: int| 0 <= i < j < e.len() ==> e[i].0 != e[j].0
}

proof fn lemma_value_at<'a>(e: Seq<(InternId, &'a str)>, id: InternId, k: int)
    requires
        distinct_ids(e),
        0 <= k < e.len(),
        e[k].0 == id,
    ensures
        value_of(e, id) == Some(e[k].1),
{
    assert(entry_at(e, id, k));
    let c = choose|j: int| entry_at(e, id, j);
    if c < k {
    } else if c > k {
        assert(e[k].0 != e[c].0);
    }
}

proof fn lemma_value_none<'a>(e: Seq<(InternId, &'a str)>, id: InternId)
    requires
        forall|j: int| 0 <= j < e.len() ==> e[j].0 != id,
    ensures
        value_of(e, id) is None,
{
}

/// Id given to the `k`-th interned name.
pub open spec fn name_id_of(k: int) -> InternId {
    InternId((DYNAMIC_START + k) as u32)
}

impl<'a> Headers<'a> {
    /// The entries, in insertion order.
    pub closed spec fn entries(&self) -> Seq<(InternId, &'a str)> {
        self.entries@
    }

    /// The lower-case header names interned so far; the name at index `k` has id
    /// `DYNAMIC_START + k`.
    pub closed spec fn names(&self) -> Seq<Seq<u8>> {
        self.names@.map_values(|v: Vec<u8>| v@)
    }

    /// Id of a lower-case header name, if it has been interned.
    pub open spec fn name_id(&self, lower: Seq<u8>) -> Option<InternId> {
        if exists|k: int| 0 <= k < self.names().len() && self.names()[k] == lower {
            Some(name_id_of(choose|k: int| 0 <= k < self.names().len() && self.names()[k] == lower))
        } else {
            None
        }
    }

    /// Value of the header whose name is `name` ignoring ASCII case.
    pub open spec fn lookup(&self, name: Seq<u8>) -> Option<&'a str> {
        match self.name_id(seq_lower(name)) {
            Some(id) => value_of(self.entries(), id),
            None => None,
        }
    }

    #[verifier::type_invariant]
    closed spec fn inv(self) -> bool {
        &&& distinct_ids(self.entries@)
        &&& forall|i: int, j: int|
            0 <= i < j < self.names@.len() ==> self.names@[i]@ != self.names@[j]@
        &&& self.names@.len() <= MAX_NAMES
    }

    /// Number of distinct names interned by this collection.
    pub closed spec fn name_count(&self) -> nat {
        self.names@.len()
    }

    /// Empty headers.
    pub fn new() -> (r: Self)
        ensures
            r.entries() == Seq::<(InternId, &'a str)>::empty(),
            r.name_count() == 0,
            forall|n: Seq<u8>| r.lookup(n) is None,
    {
        let r = Headers { entries: Vec::new(), names: Vec::new() };
        proof {
            assert forall|n: Seq<u8>| r.lookup(n) is None by {
                assert(r.names().len() == 0);
            }
        }
        r
    }

    /// Number of distinct names interned by this collection.
    pub fn names_len(&self) -> (r: usize)
        ensures
            r == self.name_count(),
    {
        self.names.len()
    }

    /// Id of an interned lower-case name.
    fn find_name(&self, lower: &[u8]) -> (r: Option<InternId>)
        ensures
            r == self.name_id(lower@),
    {
        proof {
            use_type_invariant(self);
        }
        let mut k: usize = 0;
        while k < self.names.len()
            invariant
                k <= self.names@.len(),
                self.names@.len() <= MAX_NAMES,
                forall|j: int| 0 <= j < k ==> self.names()[j] != lower@,
            decreases self.names@.len() - k,
        {
            if bytes_eq(self.names[k].as_slice(), lower) {
                proof {
                    assert(self.names()[k as int] == lower@);
                    let c = choose|j: int| 0 <= j < self.names().len() && self.names()[j] == lower@;
                    if c != k {
                        use_type_invariant(self);
                        if c < k {
                        } else {
                            assert(self.names@[k as int]@ != self.names@[c]@);
                        }
                    }
                }
                return Some(InternId(DYNAMIC_START + k as u32));
            }
            proof {
                assert(self.names()[k as int] == self.names@[k as int]@);
            }
            k += 1;
        }
        None
    }

    /// Value of the header whose name is `name` (ASCII case ignored).
    pub fn get(&self, name: &str) -> (r: Option<&'a str>)
        ensures
            r == self.lookup(name.spec_bytes()),
    {
        let lower = to_lower_vec(name.as_bytes());
        match self.find_name(lower.as_slice()) {
            Some(id) => self.get_by_id(id),
            None => None,
        }
    }

    /// Value stored under an interned id.
    pub fn get_by_id(&self, id: InternId) -> (r: Option<&'a str>)
        ensures
            r == value_of(self.entries(), id),
    {
        let mut k: usize = 0;
        while k < self.entries.len()
            invariant
                k <= self.entries@.len(),
                forall|j: int| 0 <= j < k ==> self.entries@[j].0 != id,
            decreases self.entries@.len() - k,
        {
            if self.entries[k].0 == id {
                proof {
                    assert(entry_at(self.entries(), id, k as int));
                    let c = choose|j: int| entry_at(self.entries(), id, j);
                    assert(c == k);
                }
                return Some(self.entries[k].1);
            }
            k += 1;
        }
        proof {
            assert(!exists|j: int| entry_at(self.entries(), id, j));
        }
        None
    }

    /// Store `value` under `name` (ASCII case ignored), replacing an earlier value.
    pub fn insert(&mut self, name: &str, value: &'a str)
        requires
            old(self).name_count() < MAX_NAMES,
        ensures
            final(self).lookup(name.spec_bytes()) == Some(value),
            forall|n: Seq<u8>| !eq_ignore_case(n, name.spec_bytes()) ==>
                #[trigger] final(self).lookup(n) == old(self).lookup(n),
            final(self).name_count() <= old(self).name_count() + 1,
            old(self).lookup(name.spec_bytes()) is Some ==> final(self).entries().len() == old(self).entries().len(),
            old(self).entries().len() <= final(self).entries().len() <= old(self).entries().len() + 1,
    {
        proof {
            use_type_invariant(&*self);
        }
        let lower = to_lower_vec(name.as_bytes());
        let ghost key = lower@;
        let ghost old_names = self.names();
        let id = match self.find_name(lower.as_slice()) {
            Some(id) => id,
            None => {
                let k = self.names.len();
                let id = InternId(DYNAMIC_START + k as u32);
                let ghost prev = self.names@;
                let mut names: Vec<Vec<u8>> = Vec::new();
                std::mem::swap(&mut names, &mut self.names);
                names.push(lower);
                proof {
                    assert forall|i: int| 0 <= i < prev.len() implies prev[i]@ != key by {
                        assert(old_names[i] == prev[i]@);
                    }
                    assert(forall|i: int, j: int|
                        0 <= i < j < names@.len() ==> names@[i]@ != names@[j]@);
                }
                self.names = names;
                proof {
                    assert(self.names()[k as int] == key);
                    let c = choose|j: int| 0 <= j < self.names().len() && self.names()[j] == key;
                    assert(c == k as int);
                }
                id
            },
        };
        proof {
            assert(self.name_id(key) == Some(id));
            assert(forall|i: int, j: int|
                0 <= i < j < self.names@.len() ==> self.names@[i]@ != self.names@[j]@);
            assert forall|n: Seq<u8>| !eq_ignore_case(n, name.spec_bytes()) implies
                self.name_id(#[trigger] seq_lower(n)) == old(self).name_id(seq_lower(n)) by {
                let ln = seq_lower(n);
                assert(ln != key);
                if exists|k: int| 0 <= k < old_names.len() && old_names[k] == ln {
                    let c = choose|k: int| 0 <= k < old_names.len() && old_names[k] == ln;
                    assert(self.names()[c] == ln);
                    let d = choose|k: int| 0 <= k < self.names().len() && self.names()[k] == ln;
                    if d != c {
                        if d < c {
                            assert(self.names@[d]@ != self.names@[c]@);
                        } else {
                            assert(self.names@[c]@ != self.names@[d]@);
                        }
                    }
                } else {
                    assert forall|k: int| 0 <= k < self.names().len() implies self.names()[k] != ln by {
                        if k < old_names.len() {
                            assert(self.names()[k] == old_names[k]);
                        }
                    }
                }
            }
        }
        let ghost mid_names = self.names();
        self.insert_by_id(id, value);
        proof {
            assert forall|n: Seq<u8>| !eq_ignore_case(n, name.spec_bytes()) implies
                #[trigger] self.lookup(n) == old(self).lookup(n) by {
                let ln = seq_lower(n);
                assert(self.name_id(ln) == old(self).name_id(ln));
                match old(self).name_id(ln) {
                    Some(i2) => {
                        assert(i2 != id);
                    },
                    None => {},
                }
            }
        }
    }

    /// Store `value` under an interned id, replacing an earlier value.
    pub fn insert_by_id(&mut self, id: InternId, value: &'a str)
        ensures
            value_of(final(self).entries(), id) == Some(value),
            forall|other: InternId| other != id ==>
                #[trigger] value_of(final(self).entries(), other) == value_of(old(self).entries(), other),
            final(self).names() == old(self).names(),
            value_of(old(self).entries(), id) is Some ==> final(self).entries().len() == old(self).entries().len(),
            value_of(old(self).entries(), id) is None ==> final(self).entries().len() == old(self).entries().len() + 1,
    {
        proof {
            use_type_invariant(&*self);
        }
        let mut k: usize = 0;
        while k < self.entries.len()
            invariant
                self == old(self),
                k <= self.entries@.len(),
                forall|j: int| 0 <= j < k ==> self.entries@[j].0 != id,
            decreases self.entries@.len() - k,
        {
            if self.entries[k].0 == id {
                proof {
                    use_type_invariant(&*self);
                }
                let ghost old_e = self.entries@;
                let mut entries: Vec<(InternId, &'a str)> = Vec::new();
                std::mem::swap(&mut entries, &mut self.entries);
                entries.set(k, (id, value));
                proof {
                    lemma_value_at(old_e, id, k as int);
                    assert(distinct_ids(entries@));
                }
                self.entries = entries;
                proof {
                    lemma_value_at(old_e, id, k as int);
                    assert(distinct_ids(self.entries@));
                    lemma_value_at(self.entries@, id, k as int);
                    assert forall|other: InternId| other != id implies
                        #[trigger] value_of(self.entries@, other) == value_of(old_e, other) by {
                        if exists|j: int| 0 <= j < old_e.len() && old_e[j].0 == other {
                            let j = choose|j: int| 0 <= j < old_e.len() && old_e[j].0 == other;
                            lemma_value_at(old_e, other, j);
                            lemma_value_at(self.entries@, other, j);
                        } else {
                            lemma_value_none(old_e, other);
                            lemma_value_none(self.entries@, other);
                        }
                    }
                }
                return;
            }
            k += 1;
        }
        proof {
            use_type_invariant(&*self);
        }
        let ghost old_e = self.entries@;
        proof {
            lemma_value_none(old_e, id);
        }
        let mut entries: Vec<(InternId, &'a str)> = Vec::new();
        std::mem::swap(&mut entries, &mut self.entries);
        entries.push((id, value));
        proof {
            assert(distinct_ids(entries@));
        }
        self.entries = entries;
        proof {
            assert(distinct_ids(self.entries@));
            lemma_value_at(self.entries@, id, old_e.len() as int);
            assert forall|other: InternId| other != id implies
                #[trigger] value_of(self.entries@, other) == value_of(old_e, other) by {
                if exists|j: int| 0 <= j < old_e.len() && old_e[j].0 == other {
                    let j = choose|j: int| 0 <= j < old_e.len() && old_e[j].0 == other;
                    lemma_value_at(old_e, other, j);
                    lemma_value_at(self.entries@, other, j);
                } else {
                    lemma_value_none(old_e, other);
                    lemma_value_none(self.entries@, other);
                }
            }
        }
    }

    /// Number of headers.
    pub fn len(&self) -> (r: usize)
        ensures
            r == self.entries().len(),
    {
        self.entries.len()
    }

    /// True when there is no header.
    pub fn is_empty(&self) -> (r: bool)
        ensures
            r == (self.entries().len() == 0),
    {
        self.entries.len() == 0
    }

    /// The `Content-Length` header parsed as an unsigned number.
    pub fn content_length(&self) -> (r: Option<usize>)
        ensures
            r == (match self.lookup(content_length_name()) {
                Some(v) => spec_parse_usize(v.spec_bytes()),
                None => None,
            }),
    {
        let name = "content-length";
        proof {
            reveal_strlit("content-length");
            lemma_ascii_str(name);
        }
        match self.get(name) {
            Some(v) => parse_usize(v.as_bytes()),
            None => None,
        }
    }

    /// The `Content-Type` header.
    pub fn content_type(&self) -> (r: Option<&'a str>)
        ensures
            r == self.lookup(content_type_name()),
    {
        let name = "content-type";
        proof {
            reveal_strlit("content-type");
            lemma_ascii_str(name);
        }
        self.get(name)
    }

    /// Keep the connection open unless a `Connection: close` header (any case) says not to.
    pub fn is_keep_alive(&self) -> (r: bool)
        ensures
            r == (match self.lookup(connection_name()) {
                Some(v) => !eq_ignore_case(v.spec_bytes(), close_token()),
                None => true,
            }),
    {
        let name = "connection";
        let close = "close";
        proof {
            reveal_strlit("connection");
            reveal_strlit("close");
            lemma_ascii_str(name);
            lemma_ascii_str(close);
        }
        match self.get(name) {
            Some(v) => !eq_ignore_ascii_case(v.as_bytes(), close.as_bytes()),
            None => true,
        }
    }

    /// Iterate over the headers in insertion order.
    pub fn iter<'h>(&'h self) -> (r: HeadersIter<'h, 'a>)
        ensures
            r.headers == self,
            r.pos == 0,
    {
        HeadersIter { headers: self, pos: 0 }
    }
}

impl<'a> Default for Headers<'a> {
    fn default() -> (r: Self)
        ensures
            r.entries() == Seq::<(InternId, &'a str)>::empty(),
            r.name_count() == 0,
    {
        Headers::new()
    }
}

/// Cursor over the headers of a [`Headers`] collection.
pub struct HeadersIter<'h, 'a> {
    pub headers: &'h Headers<'a>,
    pub pos: usize,
}

impl<'h, 'a> HeadersIter<'h, 'a> {
    /// The next header (id and value), or `None` after the last one.
    pub fn next(&mut self) -> (r: Option<(InternId, &'a str)>)
        ensures
            final(self).headers == old(self).headers,
            old(self).pos < old(self).headers.entries().len() ==> {
                &&& r == Some(old(self).headers.entries()[old(self).pos as int])
                &&& final(self).pos == old(self).pos + 1
            },
            old(self).pos >= old(self).headers.entries().len() ==> {
                &&& r is None
                &&& final(self).pos == old(self).pos
            },
    {
        if self.pos < self.headers.entries.len() {
            let e = self.headers.entries[self.pos];
            self.pos = self.pos + 1;
            Some(e)
        } else {
            None
        }
    }

    /// Number of headers not yet returned.
    pub fn remaining(&self) -> (r: usize)
        ensures
            r == if self.pos < self.headers.entries().len() {
                self.headers.entries().len() - self.pos
            } else {
                0
            },
    {
        if self.pos < self.headers.entries.len() {
            self.headers.entries.len() - self.pos
        } else {
            0
        }
    }
}

} // verus!
