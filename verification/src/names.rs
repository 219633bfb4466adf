//! Things held by name, in the order of the names: the files of a directory, and the handles
//! that were given out for them.

use vstd::prelude::*;
use vstd::string::*;
use vstd::utf8::{encode_utf8, encode_utf8_decode_utf8};

verus! {

/// Whether the bytes `a` come before the bytes `b` in the dictionary.
pub open spec fn bytes_before(a: Seq<u8>, b: Seq<u8>) -> bool
    decreases a.len(),
{
    if b.len() == 0 {
        false
    } else if a.len() == 0 {
        true
    } else if a[0] != b[0] {
        a[0] < b[0]
    } else {
        bytes_before(a.skip(1), b.skip(1))
    }
}

/// Whether the name `a` is listed before the name `b`: by their bytes.
pub open spec fn before(a: Seq<char>, b: Seq<char>) -> bool {
    bytes_before(encode_utf8(a), encode_utf8(b))
}

/// Whether every name stands before all that follow it.
pub open spec fn ascending(names: Seq<Seq<char>>) -> bool {
    forall|i: int, j: int|
        #![trigger names[i], names[j]]
        0 <= i < j < names.len() ==> before(names[i], names[j])
}

/// Whether `names` are the names of a set in their order, none of them twice.
pub open spec fn lists(names: Seq<Seq<char>>, set: Set<Seq<char>>) -> bool {
    &&& ascending(names)
    &&& forall|name: Seq<char>| #[trigger] set.contains(name) <==> names.contains(name)
}

/// The names of a set in their order.
pub open spec fn listing(set: Set<Seq<char>>) -> Seq<Seq<char>> {
    choose|names: Seq<Seq<char>>| lists(names, set)
}

/// Names as text.
pub open spec fn texts(names: Seq<String>) -> Seq<Seq<char>> {
    names.map_values(|name: String| name@)
}

proof fn lemma_bytes_before(a: Seq<u8>, b: Seq<u8>)
    ensures
        !bytes_before(a, a),
        a != b ==> bytes_before(a, b) || bytes_before(b, a),
        !(bytes_before(a, b) && bytes_before(b, a)),
    decreases a.len(),
{
    if a.len() > 0 && b.len() > 0 {
        lemma_bytes_before(a.skip(1), b.skip(1));
        lemma_bytes_before(a.skip(1), a.skip(1));
        if a[0] == b[0] && a.skip(1) == b.skip(1) {
            assert(a =~= seq![a[0]] + a.skip(1));
            assert(b =~= seq![b[0]] + b.skip(1));
        }
    } else if a.len() > 0 {
        lemma_bytes_before(a.skip(1), a.skip(1));
    } else if b.len() == 0 {
        assert(a =~= b);
    }
}

proof fn lemma_bytes_transitive(a: Seq<u8>, b: Seq<u8>, c: Seq<u8>)
    requires
        bytes_before(a, b),
        bytes_before(b, c),
    ensures
        bytes_before(a, c),
    decreases a.len(),
{
    if a.len() > 0 && a[0] == b[0] && b[0] == c[0] {
        lemma_bytes_transitive(a.skip(1), b.skip(1), c.skip(1));
    }
}

/// The order of names is a strict total order.
pub proof fn law_names_are_totally_ordered(a: Seq<char>, b: Seq<char>, c: Seq<char>)
    ensures
        !before(a, a),
        a != b ==> before(a, b) || before(b, a),
        !(before(a, b) && before(b, a)),
        before(a, b) && before(b, c) ==> before(a, c),
{
    lemma_bytes_before(encode_utf8(a), encode_utf8(b));
    encode_utf8_decode_utf8(a);
    encode_utf8_decode_utf8(b);
    if before(a, b) && before(b, c) {
        lemma_bytes_transitive(encode_utf8(a), encode_utf8(b), encode_utf8(c));
    }
}

/// A set of names is listed in one way only.
pub proof fn law_a_set_has_one_listing(a: Seq<Seq<char>>, b: Seq<Seq<char>>, set: Set<Seq<char>>)
    requires
        lists(a, set),
        lists(b, set),
    ensures
        a == b,
        a == listing(set),
{
    let c = listing(set);
    assert forall|name: Seq<char>|
        #![trigger a.contains(name)]
        #![trigger b.contains(name)]
        a.contains(name) <==> b.contains(name) by {
        assert(set.contains(name) <==> a.contains(name));
    }
    assert forall|name: Seq<char>|
        #![trigger a.contains(name)]
        #![trigger c.contains(name)]
        a.contains(name) <==> c.contains(name) by {
        assert(set.contains(name) <==> a.contains(name));
    }
    lemma_same_listing(a, b);
    lemma_same_listing(a, c);
}

proof fn lemma_first_is_first(a: Seq<Seq<char>>, b: Seq<Seq<char>>)
    requires
        ascending(a),
        ascending(b),
        forall|name: Seq<char>|
            #![trigger a.contains(name)]
            #![trigger b.contains(name)]
            a.contains(name) <==> b.contains(name),
        a.len() > 0,
    ensures
        b.len() > 0,
        a[0] == b[0],
{
    assert(a.contains(a[0]));
    let i = choose|i: int| 0 <= i < b.len() && b[i] == a[0];
    assert(b.contains(b[0]));
    let j = choose|j: int| 0 <= j < a.len() && a[j] == b[0];
    law_names_are_totally_ordered(a[0], b[0], a[0]);
    if i > 0 && j > 0 {
        assert(before(b[0], b[i]));
        assert(before(a[0], a[j]));
    }
}

proof fn lemma_same_listing(a: Seq<Seq<char>>, b: Seq<Seq<char>>)
    requires
        ascending(a),
        ascending(b),
        forall|name: Seq<char>|
            #![trigger a.contains(name)]
            #![trigger b.contains(name)]
            a.contains(name) <==> b.contains(name),
    ensures
        a == b,
    decreases a.len(),
{
    if a.len() == 0 {
        if b.len() > 0 {
            assert(b.contains(b[0]));
        }
        assert(a =~= b);
    } else {
        lemma_first_is_first(a, b);
        let x = a.skip(1);
        let y = b.skip(1);
        lemma_rest_of_ascending(a);
        lemma_rest_of_ascending(b);
        assert forall|name: Seq<char>|
            #![trigger x.contains(name)]
            #![trigger y.contains(name)]
            x.contains(name) <==> y.contains(name) by {
            assert(x.contains(name) ==> a.contains(name));
            assert(y.contains(name) ==> b.contains(name));
            assert(a.contains(name) && name != a[0] ==> x.contains(name));
            assert(b.contains(name) && name != b[0] ==> y.contains(name));
        }
        lemma_same_listing(x, y);
        assert(a =~= seq![a[0]] + x);
        assert(b =~= seq![b[0]] + y);
    }
}

/// What follows the first of an ascending list is ascending, does not hold the first, and holds
/// all the others.
proof fn lemma_rest_of_ascending(a: Seq<Seq<char>>)
    requires
        ascending(a),
        a.len() > 0,
    ensures
        ascending(a.skip(1)),
        !a.skip(1).contains(a[0]),
        forall|name: Seq<char>| #[trigger]
            a.contains(name) <==> (name == a[0] || a.skip(1).contains(name)),
{
    let x = a.skip(1);
    assert forall|i: int, j: int| #![trigger x[i], x[j]] 0 <= i < j < x.len() implies before(
        x[i],
        x[j],
    ) by {
        assert(before(a[i + 1], a[j + 1]));
    }
    if x.contains(a[0]) {
        let i = choose|i: int| 0 <= i < x.len() && x[i] == a[0];
        assert(before(a[0], a[i + 1]));
        law_names_are_totally_ordered(a[0], a[0], a[0]);
    }
    assert forall|name: Seq<char>| #[trigger] a.contains(name) <==> (name == a[0] || x.contains(
        name,
    )) by {
        if a.contains(name) {
            let i = choose|i: int| 0 <= i < a.len() && a[i] == name;
            if i > 0 {
                assert(x[i - 1] == name);
            }
        }
        if x.contains(name) {
            let i = choose|i: int| 0 <= i < x.len() && x[i] == name;
            assert(a[i + 1] == name);
        }
    }
}

/// How two names stand to each other.
enum Order {
    Before,
    Same,
    After,
}

/// How the name `a` stands to the name `b`.
fn order(a: &str, b: &str) -> (found: Order)
    ensures
        match found {
            Order::Before => before(a@, b@),
            Order::Same => a@ == b@,
            Order::After => before(b@, a@),
        },
{
    let x = a.as_bytes();
    let y = b.as_bytes();
    let mut i: usize = 0;
    assert(x@.skip(0) =~= x@);
    assert(y@.skip(0) =~= y@);
    while i < x.len() && i < y.len() && x[i] == y[i]
        invariant
            i <= x@.len(),
            i <= y@.len(),
            x@.take(i as int) == y@.take(i as int),
            bytes_before(x@, y@) == bytes_before(x@.skip(i as int), y@.skip(i as int)),
            bytes_before(y@, x@) == bytes_before(y@.skip(i as int), x@.skip(i as int)),
        decreases x@.len() - i,
    {
        assert(x@.skip(i as int).skip(1) =~= x@.skip(i + 1));
        assert(y@.skip(i as int).skip(1) =~= y@.skip(i + 1));
        assert(x@.take(i + 1) =~= x@.take(i as int).push(x@[i as int]));
        assert(y@.take(i + 1) =~= y@.take(i as int).push(y@[i as int]));
        i += 1;
    }
    if i == x.len() && i == y.len() {
        assert(x@ =~= x@.take(i as int));
        assert(y@ =~= y@.take(i as int));
        proof {
            encode_utf8_decode_utf8(a@);
            encode_utf8_decode_utf8(b@);
        }
        Order::Same
    } else if i == x.len() || (i < y.len() && x[i] < y[i]) {
        Order::Before
    } else {
        Order::After
    }
}

/// Values by name, in the order of the names.
pub struct NameMap<V> {
    entries: Vec<(String, V)>,
}

/// The names of the entries.
spec fn entry_names<V>(entries: Seq<(String, V)>) -> Seq<Seq<char>> {
    entries.map_values(|entry: (String, V)| entry.0@)
}

impl<V: View> View for NameMap<V> {
    type V = Map<Seq<char>, V::V>;

    closed spec fn view(&self) -> Map<Seq<char>, V::V> {
        entry_map(self.entries@)
    }
}

/// What the entries say, name by name.
spec fn entry_map<V: View>(entries: Seq<(String, V)>) -> Map<Seq<char>, V::V> {
    Map::new(
        |name: Seq<char>| entry_names(entries).contains(name),
        |name: Seq<char>| entries[entry_names(entries).index_of(name)].1@,
    )
}

proof fn lemma_entry<V: View>(entries: Seq<(String, V)>, i: int)
    requires
        ascending(entry_names(entries)),
        0 <= i < entries.len(),
    ensures
        entry_map(entries).dom().contains(entries[i].0@),
        entry_map(entries)[entries[i].0@] == entries[i].1@,
{
    let names = entry_names(entries);
    let name = entries[i].0@;
    assert(names[i] == name);
    let j = names.index_of(name);
    assert(names.contains(name));
    assert(names[j] == name);
    law_names_are_totally_ordered(name, name, name);
    if i < j {
        assert(before(names[i], names[j]));
    } else if j < i {
        assert(before(names[j], names[i]));
    }
}

/// A name that no entry has is not in the map that the entries stand for.
proof fn lemma_no_entry<V: View>(entries: Seq<(String, V)>, name: Seq<char>)
    requires
        forall|i: int| 0 <= i < entries.len() ==> (#[trigger] entries[i]).0@ != name,
    ensures
        !entry_map(entries).dom().contains(name),
{
    if entry_names(entries).contains(name) {
        let i = choose|i: int| 0 <= i < entries.len() && entry_names(entries)[i] == name;
        assert(entries[i].0@ == name);
    }
}

impl<V> NameMap<V> {
    #[verifier::type_invariant]
    spec fn in_order(self) -> bool {
        ascending(entry_names(self.entries@))
    }
}

impl<V: View> NameMap<V> {
    /// Nothing by any name.
    pub fn new() -> (made: Self)
        ensures
            made@ == Map::<Seq<char>, V::V>::empty(),
    {
        let made = NameMap { entries: Vec::new() };
        assert(made@ =~= Map::<Seq<char>, V::V>::empty());
        made
    }

    /// Where `name` is, or where it would go: the number of names before it, and whether the
    /// next one is it.
    fn find(&self, name: &str) -> (place: (usize, bool))
        ensures
            place.0 <= self.entries@.len(),
            place.1 ==> place.0 < self.entries@.len() && self.entries@[place.0 as int].0@ == name@,
            forall|i: int|
                0 <= i < place.0 ==> before((#[trigger] self.entries@[i]).0@, name@),
            forall|i: int|
                place.0 <= i < self.entries@.len() && !(place.1 && i == place.0) ==> before(
                    name@,
                    (#[trigger] self.entries@[i]).0@,
                ),
    {
        proof {
            use_type_invariant(self);
        }
        let ghost names = entry_names(self.entries@);
        let mut at: usize = 0;
        while at < self.entries.len()
            invariant
                at <= self.entries@.len(),
                names == entry_names(self.entries@),
                ascending(names),
                forall|i: int| 0 <= i < at ==> before((#[trigger] self.entries@[i]).0@, name@),
            decreases self.entries@.len() - at,
        {
            match order(self.entries[at].0.as_str(), name) {
                Order::Before => {
                    at += 1;
                },
                Order::Same => {
                    assert forall|i: int| at < i < self.entries@.len() implies before(
                        name@,
                        (#[trigger] self.entries@[i]).0@,
                    ) by {
                        assert(before(names[at as int], names[i]));
                    }
                    return (at, true);
                },
                Order::After => {
                    assert forall|i: int| at <= i < self.entries@.len() implies before(
                        name@,
                        (#[trigger] self.entries@[i]).0@,
                    ) by {
                        if at < i {
                            assert(before(names[at as int], names[i]));
                            law_names_are_totally_ordered(name@, names[at as int], names[i]);
                        }
                    }
                    return (at, false);
                },
            }
        }
        (at, false)
    }

    proof fn lemma_found(self, name: Seq<char>, at: int, found: bool)
        requires
            ascending(entry_names(self.entries@)),
            0 <= at <= self.entries@.len(),
            found ==> at < self.entries@.len() && self.entries@[at].0@ == name,
            forall|i: int| 0 <= i < at ==> before((#[trigger] self.entries@[i]).0@, name),
            forall|i: int|
                at <= i < self.entries@.len() && !(found && i == at) ==> before(
                    name,
                    (#[trigger] self.entries@[i]).0@,
                ),
        ensures
            self@.dom().contains(name) <==> found,
            found ==> self@[name] == self.entries@[at].1@,
    {
        law_names_are_totally_ordered(name, name, name);
        if found {
            lemma_entry(self.entries@, at);
        } else {
            lemma_no_entry(self.entries@, name);
        }
    }

    /// What is held by `name`.
    pub fn get(&self, name: &str) -> (value: Option<&V>)
        ensures
            match value {
                Some(held) => self@.dom().contains(name@) && held@ == self@[name@],
                None => !self@.dom().contains(name@),
            },
    {
        let (at, found) = self.find(name);
        proof {
            use_type_invariant(self);
            self.lemma_found(name@, at as int, found);
        }
        if found {
            Some(&self.entries[at].1)
        } else {
            None
        }
    }

    /// Whether something is held by `name`.
    pub fn contains_key(&self, name: &str) -> (held: bool)
        ensures
            held == self@.dom().contains(name@),
    {
        self.get(name).is_some()
    }

    /// Hold `value` by `name`, in place of what was.
    pub fn insert(&mut self, name: String, value: V)
        ensures
            final(self)@ == old(self)@.insert(name@, value@),
    {
        let (at, found) = self.find(name.as_str());
        proof {
            use_type_invariant(&*self);
            self.lemma_found(name@, at as int, found);
        }
        let ghost was = self.entries@;
        let ghost before_view = self@;
        let mut entries: Vec<(String, V)> = Vec::new();
        std::mem::swap(&mut entries, &mut self.entries);
        if found {
            entries.remove(at);
        }
        let ghost middle = entries@;
        let ghost entry = (name, value);
        entries.insert(at, (name, value));
        proof {
            let now = entries@;
            let names = entry_names(now);
            let old_names = entry_names(was);
            let shift: int = if found {
                0
            } else {
                1
            };
            assert(now[at as int] == entry);
            assert forall|i: int| 0 <= i < at implies now[i] == was[i] by {}
            assert forall|i: int| at < i < now.len() implies now[i] == was[i - shift] by {}
            assert forall|i: int, j: int|
                #![trigger names[i], names[j]]
                0 <= i < j < names.len() implies before(names[i], names[j]) by {
                let oi = if i > at {
                    i - shift
                } else {
                    i
                };
                let oj = if j > at {
                    j - shift
                } else {
                    j
                };
                if i != at && j != at {
                    assert(before(old_names[oi], old_names[oj]));
                }
            }
            let made = entry_map(now);
            let due = before_view.insert(entry.0@, entry.1@);
            assert forall|n: Seq<char>| #[trigger]
                made.dom().contains(n) <==> due.dom().contains(n) by {
                if made.dom().contains(n) {
                    let i = choose|i: int| 0 <= i < now.len() && names[i] == n;
                    if i < at {
                        lemma_entry(was, i);
                    } else if i > at {
                        lemma_entry(was, i - shift);
                    }
                }
                if before_view.dom().contains(n) && n != entry.0@ {
                    let i = choose|i: int| 0 <= i < was.len() && old_names[i] == n;
                    lemma_entry(now, if i < at {
                        i
                    } else {
                        i + shift
                    });
                }
                lemma_entry(now, at as int);
            }
            assert forall|n: Seq<char>| #[trigger] made.dom().contains(n) implies made[n]
                == due[n] by {
                let i = choose|i: int| 0 <= i < now.len() && names[i] == n;
                lemma_entry(now, i);
                law_names_are_totally_ordered(entry.0@, entry.0@, entry.0@);
                if i < at {
                    lemma_entry(was, i);
                    assert(before(was[i].0@, entry.0@));
                } else if i > at {
                    lemma_entry(was, i - shift);
                    assert(before(entry.0@, was[i - shift].0@));
                }
            }
            assert(made =~= due);
        }
        self.entries = entries;
    }

    /// Let go of what is held by `name`.
    pub fn remove(&mut self, name: &str) -> (value: Option<V>)
        ensures
            final(self)@ == old(self)@.remove(name@),
            match value {
                Some(held) => old(self)@.dom().contains(name@) && held@ == old(self)@[name@],
                None => !old(self)@.dom().contains(name@),
            },
    {
        let (at, found) = self.find(name);
        proof {
            use_type_invariant(&*self);
            self.lemma_found(name@, at as int, found);
        }
        if !found {
            assert(self@.remove(name@) =~= self@);
            return None;
        }
        let ghost was = self.entries@;
        let ghost before_view = self@;
        let mut entries: Vec<(String, V)> = Vec::new();
        std::mem::swap(&mut entries, &mut self.entries);
        let entry = entries.remove(at);
        proof {
            let now = entries@;
            let names = entry_names(now);
            let old_names = entry_names(was);
            assert forall|i: int, j: int|
                #![trigger names[i], names[j]]
                0 <= i < j < names.len() implies before(names[i], names[j]) by {
                let oi = if i < at {
                    i
                } else {
                    i + 1
                };
                let oj = if j < at {
                    j
                } else {
                    j + 1
                };
                assert(names[i] == old_names[oi]);
                assert(names[j] == old_names[oj]);
                assert(before(old_names[oi], old_names[oj]));
            }
            let made = entry_map(now);
            let due = before_view.remove(name@);
            law_names_are_totally_ordered(name@, name@, name@);
            assert forall|n: Seq<char>| #[trigger]
                made.dom().contains(n) <==> due.dom().contains(n) by {
                if made.dom().contains(n) {
                    let i = choose|i: int| 0 <= i < now.len() && names[i] == n;
                    let oi = if i < at {
                        i
                    } else {
                        i + 1
                    };
                    assert(now[i] == was[oi]);
                    lemma_entry(was, oi);
                    if i < at {
                        assert(before(was[oi].0@, name@));
                    } else {
                        assert(before(name@, was[oi].0@));
                    }
                }
                if due.dom().contains(n) {
                    let i = choose|i: int| 0 <= i < was.len() && old_names[i] == n;
                    let ni = if i < at {
                        i
                    } else {
                        i - 1
                    };
                    assert(now[ni] == was[i]);
                    lemma_entry(now, ni);
                }
            }
            assert forall|n: Seq<char>| #[trigger] made.dom().contains(n) implies made[n]
                == due[n] by {
                let i = choose|i: int| 0 <= i < now.len() && names[i] == n;
                let oi = if i < at {
                    i
                } else {
                    i + 1
                };
                assert(now[i] == was[oi]);
                lemma_entry(now, i);
                lemma_entry(was, oi);
            }
            assert(made =~= due);
        }
        self.entries = entries;
        Some(entry.1)
    }

    /// The names, in their order.
    pub fn keys(&self) -> (names: Vec<String>)
        ensures
            texts(names@) == listing(self@.dom()),
            lists(texts(names@), self@.dom()),
    {
        let mut names: Vec<String> = Vec::new();
        let mut i: usize = 0;
        while i < self.entries.len()
            invariant
                i <= self.entries@.len(),
                names@.len() == i,
                forall|j: int| 0 <= j < i ==> (#[trigger] names@[j])@ == self.entries@[j].0@,
            decreases self.entries@.len() - i,
        {
            names.push(self.entries[i].0.clone());
            i += 1;
        }
        proof {
            use_type_invariant(self);
            let made = texts(names@);
            assert(made =~= entry_names(self.entries@));
            law_a_set_has_one_listing(made, made, self@.dom());
        }
        names
    }

    /// Whether nothing is held.
    pub fn is_empty(&self) -> (empty: bool)
        ensures
            empty == (self@ == Map::<Seq<char>, V::V>::empty()),
    {
        proof {
            use_type_invariant(self);
            if self.entries@.len() == 0 {
                assert(self@ =~= Map::<Seq<char>, V::V>::empty());
            } else {
                lemma_entry(self.entries@, 0);
            }
        }
        self.entries.len() == 0
    }

    /// The first name in the order, and what is held by it.
    pub fn first(&self) -> (entry: Option<(&String, &V)>)
        ensures
            match entry {
                Some((name, value)) => {
                    &&& listing(self@.dom()).len() > 0
                    &&& name@ == listing(self@.dom())[0]
                    &&& self@.dom().contains(name@)
                    &&& value@ == self@[name@]
                },
                None => listing(self@.dom()).len() == 0 && self@ == Map::<Seq<char>, V::V>::empty(),
            },
    {
        proof {
            use_type_invariant(self);
            let names = entry_names(self.entries@);
            law_a_set_has_one_listing(names, names, self@.dom());
            if self.entries@.len() == 0 {
                assert(self@ =~= Map::<Seq<char>, V::V>::empty());
            } else {
                lemma_entry(self.entries@, 0);
            }
        }
        if self.entries.len() == 0 {
            None
        } else {
            Some((&self.entries[0].0, &self.entries[0].1))
        }
    }
}

/// Of two byte strings the one is before the other where it has the smaller byte at the first
/// place where they differ, or ends there.
pub proof fn law_the_first_difference_decides(a: Seq<u8>, b: Seq<u8>)
    ensures
        bytes_before(a, b) <==> exists|k: int|
            0 <= k <= a.len() && k < b.len() && #[trigger] a.take(k) == b.take(k) && (k == a.len()
                || a[k] < b[k]),
    decreases a.len(),
{
    if bytes_before(a, b) {
        if a.len() == 0 {
            assert(a.take(0) == b.take(0));
        } else if a[0] != b[0] {
            assert(a.take(0) == b.take(0));
        } else {
            law_the_first_difference_decides(a.skip(1), b.skip(1));
            let (x, y) = (a.skip(1), b.skip(1));
            let k = choose|k: int|
                0 <= k <= x.len() && k < y.len() && #[trigger] x.take(k) == y.take(k) && (k
                    == x.len() || x[k] < y[k]);
            assert(a.take(k + 1) =~= seq![a[0]] + x.take(k));
            assert(b.take(k + 1) =~= seq![b[0]] + y.take(k));
        }
    }
    if exists|k: int|
        0 <= k <= a.len() && k < b.len() && #[trigger] a.take(k) == b.take(k) && (k == a.len()
            || a[k] < b[k]) {
        let k = choose|k: int|
            0 <= k <= a.len() && k < b.len() && #[trigger] a.take(k) == b.take(k) && (k == a.len()
                || a[k] < b[k]);
        if k > 0 {
            assert(a.take(k)[0] == b.take(k)[0]);
            let (x, y) = (a.skip(1), b.skip(1));
            assert(x.take(k - 1) =~= a.take(k).skip(1));
            assert(y.take(k - 1) =~= b.take(k).skip(1));
            law_the_first_difference_decides(x, y);
        }
    }
}

/// Names are compared by the bytes that they are written in, and a list holds the names of a set,
/// every one once, each behind those that come before it.
pub proof fn law_a_listing_is_the_set_in_order(names: Seq<Seq<char>>, set: Set<Seq<char>>)
    ensures
        lists(names, set) <==> {
            &&& forall|name: Seq<char>| #[trigger] set.contains(name) <==> names.contains(name)
            &&& forall|i: int, j: int|
                #![trigger names[i], names[j]]
                0 <= i < j < names.len() ==> bytes_before(
                    encode_utf8(names[i]),
                    encode_utf8(names[j]),
                )
        },
        lists(names, set) ==> listing(set) == names && names.no_duplicates(),
{
    if lists(names, set) {
        law_a_set_has_one_listing(names, names, set);
        assert forall|i: int, j: int|
            0 <= i < names.len() && 0 <= j < names.len() && i != j implies names[i]
            != names[j] by {
            law_names_are_totally_ordered(names[i], names[j], names[i]);
            if i < j {
                assert(before(names[i], names[j]));
            } else {
                assert(before(names[j], names[i]));
            }
        }
    }
}

/// The text of names is the text of each.
pub proof fn law_names_are_their_text(names: Seq<String>)
    ensures
        texts(names).len() == names.len(),
        forall|i: int| 0 <= i < names.len() ==> #[trigger] texts(names)[i] == names[i]@,
{
}

} // verus!
