//! The bookkeeping of a chat service: a bounded cache of conversations that
//! forgets the one used least recently, the file a user's conversation is
//! kept in, and which messages a user's history shows.
use vstd::prelude::*;
use crate::text::push_char;

verus! {

// ---------------------------------------------------------------------------
// Models
// ---------------------------------------------------------------------------

/// The first position, from `i` on, whose key is `k`, or -1.
pub open spec fn find_key<T>(e: Seq<(Seq<char>, T)>, k: Seq<char>, i: int) -> int
    decreases e.len() - i,
{
    if i < 0 || i >= e.len() {
        -1
    } else if e[i].0 == k {
        i
    } else {
        find_key(e, k, i + 1)
    }
}

/// No key occurs twice.
pub open spec fn keys_distinct<T>(e: Seq<(Seq<char>, T)>) -> bool {
    forall|i: int, j: int| 0 <= i < j < e.len() ==> #[trigger] e[i].0 != #[trigger] e[j].0
}

/// The entries after `k` is stored with `v` in a cache of capacity `cap`: an
/// entry of that key is replaced; otherwise, in a full cache, the least
/// recently used entry (the first) leaves. Either way the new entry is the most
/// recently used.
pub open spec fn inserted<T>(e: Seq<(Seq<char>, T)>, cap: int, k: Seq<char>, v: T) -> Seq<(Seq<char>, T)> {
    let i = find_key(e, k, 0);
    if i >= 0 {
        e.remove(i).push((k, v))
    } else if e.len() >= cap {
        e.drop_first().push((k, v))
    } else {
        e.push((k, v))
    }
}

/// The instruction every conversation starts with.
pub open spec fn pirate_prompt() -> Seq<char> {
    "The assistant will act like a pirate"@
}

// ---------------------------------------------------------------------------
// Lemmas
// ---------------------------------------------------------------------------

/// `find_key` finds the key exactly when it occurs from `i` on, at its first such position.
pub proof fn lemma_find_key<T>(e: Seq<(Seq<char>, T)>, k: Seq<char>, i: int)
    requires
        0 <= i <= e.len(),
    ensures
        find_key(e, k, i) == -1 || find_key(e, k, i) >= i,
        find_key(e, k, i) == -1 <==> forall|j: int| i <= j < e.len() ==> #[trigger] e[j].0 != k,
        find_key(e, k, i) >= 0 ==> {
            &&& i <= find_key(e, k, i) < e.len()
            &&& e[find_key(e, k, i)].0 == k
            &&& forall|j: int| i <= j < find_key(e, k, i) ==> #[trigger] e[j].0 != k
        },
    decreases e.len() - i,
{
    if i < e.len() {
        lemma_find_key(e, k, i + 1);
    }
}

/// Among distinct keys, the position of a key is the only one holding it.
pub proof fn lemma_find_unique<T>(e: Seq<(Seq<char>, T)>, j: int)
    requires
        keys_distinct(e),
        0 <= j < e.len(),
    ensures
        find_key(e, e[j].0, 0) == j,
{
    lemma_find_key(e, e[j].0, 0);
    let f = find_key(e, e[j].0, 0);
    if f != j {
        if f < j {
            assert(e[f].0 == e[j].0);
        } else {
            assert(e[j].0 != e[j].0);
        }
    }
}

/// Storing an entry keeps the keys distinct and the size within the capacity.
proof fn lemma_inserted_wf<T>(e: Seq<(Seq<char>, T)>, cap: int, k: Seq<char>, v: T)
    requires
        keys_distinct(e),
        e.len() <= cap,
        cap >= 1,
    ensures
        keys_distinct(inserted(e, cap, k, v)),
        inserted(e, cap, k, v).len() <= cap,
        inserted(e, cap, k, v).len() >= 1,
        inserted(e, cap, k, v).last() == (k, v),
{
    lemma_find_key(e, k, 0);
    let i = find_key(e, k, 0);
    let r = inserted(e, cap, k, v);
    if i >= 0 {
        let base = e.remove(i);
        assert forall|a: int, b: int| 0 <= a < b < r.len() implies #[trigger] r[a].0 != #[trigger] r[b].0 by {
            if b == r.len() - 1 {
                if a < i {
                    assert(r[a] == e[a]);
                } else {
                    assert(r[a] == e[a + 1]);
                    assert(e[i].0 == k);
                }
            } else {
                let ea = if a < i { a } else { a + 1 };
                let eb = if b < i { b } else { b + 1 };
                assert(r[a] == e[ea]);
                assert(r[b] == e[eb]);
            }
        }
    } else if e.len() >= cap {
        assert forall|a: int, b: int| 0 <= a < b < r.len() implies #[trigger] r[a].0 != #[trigger] r[b].0 by {
            if b == r.len() - 1 {
                assert(r[a] == e[a + 1]);
                assert(e[a + 1].0 != k);
            } else {
                assert(r[a] == e[a + 1]);
                assert(r[b] == e[b + 1]);
            }
        }
    } else {
        assert forall|a: int, b: int| 0 <= a < b < r.len() implies #[trigger] r[a].0 != #[trigger] r[b].0 by {
            if b == r.len() - 1 {
                assert(r[a] == e[a]);
                assert(e[a].0 != k);
            } else {
                assert(r[a] == e[a]);
                assert(r[b] == e[b]);
            }
        }
    }
}

/// Moving an entry to the end, whatever its value becomes, keeps the keys distinct.
proof fn lemma_touched_wf<T>(e: Seq<(Seq<char>, T)>, i: int, k: Seq<char>)
    requires
        keys_distinct(e),
        0 <= i < e.len(),
        e[i].0 == k,
    ensures
        forall|v: T| #[trigger] keys_distinct(e.remove(i).push((k, v))),
{
    assert forall|v: T| #[trigger] keys_distinct(e.remove(i).push((k, v))) by {
        let r = e.remove(i).push((k, v));
        assert forall|a: int, b: int| 0 <= a < b < r.len() implies #[trigger] r[a].0 != #[trigger] r[b].0 by {
            let ea = if a < i { a } else { a + 1 };
            assert(r[a] == e[ea]);
            if b < r.len() - 1 {
                let eb = if b < i { b } else { b + 1 };
                assert(r[b] == e[eb]);
            }
        }
    }
}

/// What is stored is found again: after `k` is stored with `v`, `k` is the
/// key of the most recently used entry, found at that position, with `v`.
pub proof fn lemma_stored_is_found<T>(e: Seq<(Seq<char>, T)>, cap: int, k: Seq<char>, v: T)
    requires
        keys_distinct(e),
        e.len() <= cap,
        cap >= 1,
    ensures
        ({
            let r = inserted(e, cap, k, v);
            &&& find_key(r, k, 0) == r.len() - 1
            &&& r[find_key(r, k, 0)].1 == v
        }),
{
    lemma_inserted_wf(e, cap, k, v);
    let r = inserted(e, cap, k, v);
    lemma_find_unique(r, r.len() - 1);
}

// ---------------------------------------------------------------------------
// The cache
// ---------------------------------------------------------------------------

/// A cache of values by user name that holds at most `capacity` of them and,
/// when full, forgets the one used least recently.
pub struct Cache<T> {
    capacity: usize,
    names: Vec<String>,
    values: Vec<T>,
}

/// The entries of parallel lists of names and values.
pub open spec fn zip_entries<T>(names: Seq<String>, values: Seq<T>) -> Seq<(Seq<char>, T)> {
    Seq::new(names.len(), |i: int| (names[i]@, values[i]))
}

/// No name occurs twice.
pub open spec fn names_distinct(names: Seq<String>) -> bool {
    forall|i: int, j: int| 0 <= i < j < names.len() ==> #[trigger] names[i]@ != #[trigger] names[j]@
}

/// Distinct names make distinct keys, whatever the values.
proof fn lemma_zip_distinct<T>(names: Seq<String>, values: Seq<T>)
    ensures
        names_distinct(names) <==> keys_distinct(zip_entries(names, values)),
{
    let z = zip_entries(names, values);
    if names_distinct(names) {
        assert forall|i: int, j: int| 0 <= i < j < z.len() implies #[trigger] z[i].0 != #[trigger] z[j].0 by {
            assert(names[i]@ != names[j]@);
        }
    }
    if keys_distinct(z) {
        assert forall|i: int, j: int| 0 <= i < j < names.len() implies #[trigger] names[i]@
            != #[trigger] names[j]@ by {
            assert(z[i].0 != z[j].0);
        }
    }
}

impl<T> Cache<T> {
    /// The entries, least recently used first.
    pub closed spec fn entries(&self) -> Seq<(Seq<char>, T)> {
        zip_entries(self.names@, self.values@)
    }

    /// The most entries the cache holds.
    pub closed spec fn cap(&self) -> int {
        self.capacity as int
    }

    /// Names and values pair up, names are distinct, and the entries fit
    /// within a positive capacity.
    #[verifier::type_invariant]
    spec fn wf(self) -> bool {
        &&& self.names@.len() == self.values@.len()
        &&& names_distinct(self.names@)
        &&& self.names@.len() <= self.capacity
        &&& self.capacity >= 1
    }

    /// An empty cache that holds at most `capacity` values.
    pub fn new(capacity: usize) -> (r: Cache<T>)
        requires
            capacity >= 1,
        ensures
            r.cap() == capacity,
            r.entries() == Seq::<(Seq<char>, T)>::empty(),
    {
        let r = Cache { capacity, names: Vec::new(), values: Vec::new() };
        assert(r.entries() =~= Seq::<(Seq<char>, T)>::empty());
        r
    }

    /// The number of values held; never more than the capacity, and no
    /// name is held twice.
    pub fn len(&self) -> (r: usize)
        ensures
            r == self.entries().len(),
            r <= self.cap(),
            keys_distinct(self.entries()),
    {
        proof {
            use_type_invariant(self);
            lemma_zip_distinct(self.names@, self.values@);
        }
        self.names.len()
    }

    /// The position of the entry of `username`, if any.
    fn position(&self, username: &String) -> (r: Option<usize>)
        ensures
            match r {
                Some(i) => i == find_key(self.entries(), username@, 0) && i < self.entries().len(),
                None => find_key(self.entries(), username@, 0) == -1,
            },
    {
        let ghost e = self.entries();
        let mut i: usize = 0;
        while i < self.names.len()
            invariant
                e == self.entries(),
                e.len() == self.names@.len(),
                i <= e.len(),
                find_key(e, username@, 0) == find_key(e, username@, i as int),
            decreases self.names.len() - i,
        {
            assert(e[i as int].0 == self.names@[i as int]@);
            if self.names[i] == *username {
                return Some(i);
            }
            i = i + 1;
        }
        None
    }

    /// Whether a value for `username` is held; the order of use is unchanged.
    pub fn contains(&self, username: &String) -> (r: bool)
        ensures
            r == (find_key(self.entries(), username@, 0) >= 0),
    {
        self.position(username).is_some()
    }

    /// The parts of the cache, which is left empty.
    fn take_parts(&mut self) -> (r: (usize, Vec<String>, Vec<T>))
        ensures
            r.0 == old(self).cap(),
            zip_entries(r.1@, r.2@) == old(self).entries(),
            r.1@.len() == r.2@.len(),
            r.1@.len() <= r.0,
            r.0 >= 1,
            keys_distinct(old(self).entries()),
    {
        proof {
            use_type_invariant(&*self);
        }
        let mut parts = Cache { capacity: self.capacity, names: Vec::new(), values: Vec::new() };
        std::mem::swap(self, &mut parts);
        proof {
            use_type_invariant(&parts);
            lemma_zip_distinct(parts.names@, parts.values@);
        }
        let Cache { capacity, names, values } = parts;
        (capacity, names, values)
    }

    /// The value held for `username`, which becomes the most recently used;
    /// none if the cache holds no value for it (then nothing changes).
    pub fn get_chat(&mut self, username: &String) -> (r: Option<&mut T>)
        ensures
            final(self).cap() == old(self).cap(),
            ({
                let e = old(self).entries();
                let i = find_key(e, username@, 0);
                if i < 0 {
                    &&& r is None
                    &&& final(self).entries() == e
                } else {
                    &&& r is Some
                    &&& *r->0 == e[i].1
                    &&& final(self).entries() == e.remove(i).push((username@, *final(r->0)))
                }
            }),
    {
        let ghost e = self.entries();
        match self.position(username) {
            None => None,
            Some(i) => {
                let (capacity, mut names, mut values) = self.take_parts();
                proof {
                    lemma_find_key(e, username@, 0);
                    lemma_touched_wf(e, i as int, username@);
                }
                let name = names.remove(i);
                names.push(name);
                let value = values.remove(i);
                values.push(value);
                let last = values.len() - 1;
                assert(zip_entries(names@, values@) =~= e.remove(i as int).push(e[i as int]));
                proof {
                    lemma_zip_distinct(names@, values@);
                }
                *self = Cache { capacity, names, values };
                Some(&mut self.values[last])
            },
        }
    }

    /// Stores `chat` for `username` as the most recently used value,
    /// replacing a value held for it or, in a full cache, forgetting the
    /// least recently used one (see [`inserted`]).
    pub fn insert_chat(&mut self, username: String, chat: T)
        ensures
            final(self).cap() == old(self).cap(),
            final(self).entries() == inserted(old(self).entries(), old(self).cap(), username@, chat),
    {
        let ghost e = self.entries();
        let ghost k = username@;
        let position = self.position(&username);
        let (capacity, mut names, mut values) = self.take_parts();
        proof {
            lemma_inserted_wf(e, capacity as int, k, chat);
        }
        match position {
            Some(i) => {
                names.remove(i);
                values.remove(i);
            },
            None => {
                if names.len() >= capacity {
                    names.remove(0);
                    values.remove(0);
                }
            },
        }
        names.push(username);
        values.push(chat);
        proof {
            let m = zip_entries(names@, values@);
            match position {
                Some(i) => {
                    assert(m =~= e.remove(i as int).push((k, chat)));
                },
                None => {
                    if e.len() >= capacity {
                        assert(m =~= e.drop_first().push((k, chat)));
                    } else {
                        assert(m =~= e.push((k, chat)));
                    }
                },
            }
        }
        proof {
            lemma_zip_distinct(names@, values@);
        }
        *self = Cache { capacity, names, values };
    }
}

// ---------------------------------------------------------------------------
// Conversations
// ---------------------------------------------------------------------------

/// The instruction every conversation starts with.
pub fn system_prompt() -> (r: String)
    ensures
        r@ == pirate_prompt(),
{
    "The assistant will act like a pirate".to_owned()
}

/// The file in which `username`'s conversation is kept: the name followed by `.txt`.
pub fn history_file_name(username: &String) -> (r: String)
    ensures
        r@ == username@ + ".txt"@,
{
    let mut out = username.clone();
    let ext = crate::text::chars_of(".txt");
    let mut i: usize = 0;
    while i < ext.len()
        invariant
            i <= ext@.len(),
            ext@ == ".txt"@,
            out@ == username@ + ext@.subrange(0, i as int),
        decreases ext.len() - i,
    {
        push_char(&mut out, ext[i]);
        assert(ext@.subrange(0, i + 1) =~= ext@.subrange(0, i as int).push(ext@[i as int]));
        i = i + 1;
    }
    assert(ext@.subrange(0, ext@.len() as int) =~= ext@);
    out
}

/// The texts of a list of messages.
pub open spec fn texts(v: Seq<String>) -> Seq<Seq<char>> {
    v.map_values(|s: String| s@)
}

/// The messages a user's history shows: all but the first, which is the
/// instruction the conversation starts with (none of an empty conversation).
pub fn visible_history(messages: Vec<String>) -> (r: Vec<String>)
    ensures
        texts(r@) == if messages@.len() == 0 {
            Seq::<Seq<char>>::empty()
        } else {
            texts(messages@).subrange(1, messages@.len() as int)
        },
{
    let mut out: Vec<String> = Vec::new();
    if messages.len() == 0 {
        assert(texts(out@) =~= Seq::<Seq<char>>::empty());
        return out;
    }
    let mut i: usize = 1;
    while i < messages.len()
        invariant
            1 <= i <= messages@.len(),
            texts(out@) == texts(messages@).subrange(1, i as int),
        decreases messages.len() - i,
    {
        let ghost before = out@;
        out.push(messages[i].clone());
        assert(out@ == before.push(messages@[i as int]));
        assert(texts(out@) =~= texts(before).push(messages@[i as int]@));
        assert(texts(messages@).subrange(1, i + 1) =~= texts(messages@).subrange(1, i as int).push(
            messages@[i as int]@,
        ));
        assert(texts(out@) =~= texts(messages@).subrange(1, i + 1));
        i = i + 1;
    }
    out
}

} // verus!
