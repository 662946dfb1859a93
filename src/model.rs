use vstd::prelude::*;

verus! {

/// The shard that a worker loads at startup.
#[derive(Debug, Clone, Copy, PartialEq, Eq, Structural)]
pub enum Group {
    Am,
    Nz,
    Unimplemented,
}

/// The group that a lowercase name stands for; only two names stand for one.
pub open spec fn group_named(s: Seq<char>) -> Option<Group> {
    if s == "am"@ {
        Some(Group::Am)
    } else if s == "nz"@ {
        Some(Group::Nz)
    } else {
        None
    }
}

/// How a group is written.
pub open spec fn group_label(g: Group) -> Seq<char> {
    match g {
        Group::Am => "am"@,
        Group::Nz => "nz"@,
        Group::Unimplemented => "unimplemented"@,
    }
}

/// What `str::to_lowercase` gives for a string.
pub uninterp spec fn lower_of(s: Seq<char>) -> Seq<char>;

/// Relies on str::to_lowercase: the result depends on the characters alone.
#[verifier::external_body]
fn lowercase(s: &str) -> (r: String)
    ensures
        r@ == lower_of(s@),
{
    s.to_lowercase()
}

/// The message given for a group name that is not known.
pub open spec fn unknown_group_message() -> &'static str {
    "The only valid groups are `am` and `nz`."
}

impl Group {
    /// The group whose name, already in lowercase, is `s`.
    pub fn from_lowered(s: &str) -> (r: Option<Group>)
        ensures
            r == group_named(s@),
    {
        let t = s.to_owned();
        if t == "am".to_owned() {
            Some(Group::Am)
        } else if t == "nz".to_owned() {
            Some(Group::Nz)
        } else {
            None
        }
    }

    /// The group named by `value`, in any case.
    pub fn try_from(value: String) -> (r: Result<Group, &'static str>)
        ensures
            r matches Ok(g) ==> group_named(lower_of(value@)) == Some(g),
            r is Err <==> group_named(lower_of(value@)) is None,
            r matches Err(m) ==> m == unknown_group_message(),
    {
        let lowered = lowercase(value.as_str());
        match Group::from_lowered(lowered.as_str()) {
            Some(g) => Ok(g),
            None => Err("The only valid groups are `am` and `nz`."),
        }
    }

    /// The group's name, as it is written in a shard file's name.
    pub fn to_string(&self) -> (r: String)
        ensures
            r@ == group_label(*self),
    {
        match self {
            Group::Am => "am".to_owned(),
            Group::Nz => "nz".to_owned(),
            Group::Unimplemented => "unimplemented".to_owned(),
        }
    }
}

/// The searchable fields of one record, as plain values.
pub struct PersonView {
    pub record_id: u64,
    pub name: Seq<char>,
    pub location: Seq<char>,
    pub year: u16,
}

/// One record of a shard.
#[derive(Debug, Clone)]
pub struct Person {
    pub record_id: u64,
    pub name: String,
    pub location: String,
    pub year: u16,
}

impl View for Person {
    type V = PersonView;

    open spec fn view(&self) -> PersonView {
        PersonView {
            record_id: self.record_id,
            name: self.name@,
            location: self.location@,
            year: self.year,
        }
    }
}

impl Person {
    pub fn new(record_id: u64, name: String, location: String, year: u16) -> (r: Person)
        ensures
            r@ == (PersonView { record_id, name: name@, location: location@, year }),
    {
        Person { record_id, name, location, year }
    }

    /// Whether this record answers `call`.
    pub fn answers(&self, call: &Call) -> (r: bool)
        ensures
            r == selects(call@, self@),
    {
        match call {
            Call::Name { name } => self.name.eq(name),
            Call::Location { location } => self.location.eq(location),
            Call::Year { location, year } => self.location.eq(location) && self.year == *year,
        }
    }

    /// A copy of this record, field for field.
    pub fn duplicate(&self) -> (r: Person)
        ensures
            r@ == self@,
    {
        Person {
            record_id: self.record_id,
            name: self.name.clone(),
            location: self.location.clone(),
            year: self.year,
        }
    }
}

/// A call as plain values.
pub enum CallView {
    Name { name: Seq<char> },
    Location { location: Seq<char> },
    Year { location: Seq<char>, year: u16 },
}

/// A remote procedure call: the closed set of lookups a client may issue.
#[derive(Debug)]
pub enum Call {
    Name { name: String },
    Location { location: String },
    Year { location: String, year: u16 },
}

impl View for Call {
    type V = CallView;

    open spec fn view(&self) -> CallView {
        match self {
            Call::Name { name } => CallView::Name { name: name@ },
            Call::Location { location } => CallView::Location { location: location@ },
            Call::Year { location, year } => CallView::Year { location: location@, year: *year },
        }
    }
}

/// Whether a record answers a call: exact, case-sensitive field equality,
/// with location and year taken together for a year lookup.
pub open spec fn selects(c: CallView, p: PersonView) -> bool {
    match c {
        CallView::Name { name } => p.name == name,
        CallView::Location { location } => p.location == location,
        CallView::Year { location, year } => p.location == location && p.year == year,
    }
}

/// A result set: records under string keys, each key held once.
pub struct Data {
    entries: Vec<(String, Person)>,
}

/// The keys of an entry list are pairwise distinct.
pub open spec fn keys_unique(s: Seq<(String, Person)>) -> bool {
    forall|i: int, j: int|
        0 <= i < s.len() && 0 <= j < s.len() && i != j ==> #[trigger] s[i].0@ != #[trigger] s[j].0@
}

/// The index at which an entry list holds a key, if it holds it.
pub open spec fn has_key_at(s: Seq<(String, Person)>, k: Seq<char>, i: int) -> bool {
    0 <= i < s.len() && s[i].0@ == k
}

/// The map that an entry list stands for.
pub open spec fn entries_map(s: Seq<(String, Person)>) -> Map<Seq<char>, PersonView> {
    Map::new(
        |k: Seq<char>| exists|i: int| has_key_at(s, k, i),
        |k: Seq<char>| s[choose|i: int| has_key_at(s, k, i)].1@,
    )
}

impl View for Data {
    type V = Map<Seq<char>, PersonView>;

    closed spec fn view(&self) -> Map<Seq<char>, PersonView> {
        entries_map(self.entries@)
    }
}

/// With distinct keys, the value under the key of entry `i` is that entry's record.
pub proof fn lemma_entries_map_at(s: Seq<(String, Person)>, i: int)
    requires
        keys_unique(s),
        0 <= i < s.len(),
    ensures
        entries_map(s).contains_key(s[i].0@),
        entries_map(s)[s[i].0@] == s[i].1@,
{
    let k = s[i].0@;
    assert(has_key_at(s, k, i));
    let j = choose|j: int| has_key_at(s, k, j);
    assert(s[j].0@ == s[i].0@);
}

/// A map that holds exactly the keys of a list with distinct keys, each with
/// that entry's record, is the map the list stands for.
pub proof fn lemma_entries_map_eq(s: Seq<(String, Person)>, m: Map<Seq<char>, PersonView>)
    requires
        keys_unique(s),
        forall|a: int| 0 <= a < s.len() ==>
            #[trigger] m.contains_key(s[a].0@) && m[s[a].0@] == s[a].1@,
        forall|k: Seq<char>| #[trigger] m.contains_key(k) ==> exists|a: int| has_key_at(s, k, a),
    ensures
        entries_map(s) == m,
{
    assert forall|k: Seq<char>| #[trigger] entries_map(s).contains_key(k) == m.contains_key(k) by {
        if entries_map(s).contains_key(k) {
            let a = choose|a: int| has_key_at(s, k, a);
            assert(m.contains_key(s[a].0@));
        }
    }
    assert forall|k: Seq<char>| #[trigger] entries_map(s).contains_key(k) implies
        entries_map(s)[k] == m[k] by {
        let a = choose|a: int| has_key_at(s, k, a);
        lemma_entries_map_at(s, a);
        assert(m.contains_key(s[a].0@));
    }
    assert(entries_map(s) =~= m);
}

impl Data {
    pub closed spec fn wf(&self) -> bool {
        keys_unique(self.entries@)
    }

    /// An empty result set.
    pub fn new() -> (r: Data)
        ensures
            r.wf(),
            r@ == Map::<Seq<char>, PersonView>::empty(),
    {
        let r = Data { entries: Vec::new() };
        assert(r@ =~= Map::<Seq<char>, PersonView>::empty());
        r
    }

    /// The number of keys held.
    pub fn len(&self) -> (r: usize)
        requires
            self.wf(),
        ensures
            r as int == self@.len(),
    {
        proof {
            self.lemma_dom_len();
        }
        self.entries.len()
    }

    proof fn lemma_dom_len(&self)
        requires
            self.wf(),
        ensures
            self@.dom().finite(),
            self@.dom().len() == self.entries@.len(),
        decreases self.entries@.len(),
    {
        let s = self.entries@;
        let keys = Seq::new(s.len(), |i: int| s[i].0@);
        assert forall|i: int, j: int| 0 <= i < keys.len() && 0 <= j < keys.len() && i != j
            implies keys[i] != keys[j] by {
            assert(s[i].0@ != s[j].0@);
        }
        assert(keys.no_duplicates());
        assert forall|k: Seq<char>| self@.dom().contains(k) <==> keys.to_set().contains(k) by {
            if self@.dom().contains(k) {
                let i = choose|i: int| has_key_at(s, k, i);
                assert(keys[i] == k);
            }
            if keys.to_set().contains(k) {
                let i = choose|i: int| 0 <= i < keys.len() && keys[i] == k;
                assert(has_key_at(s, k, i));
            }
        }
        assert(self@.dom() =~= keys.to_set());
        keys.unique_seq_to_set();
    }

    /// Puts `record` under `key`, replacing what the key held before.
    pub fn insert(&mut self, key: String, record: Person)
        requires
            old(self).wf(),
        ensures
            final(self).wf(),
            final(self)@ == old(self)@.insert(key@, record@),
    {
        let ghost k = key@;
        let ghost v = record@;
        let n = self.entries.len();
        let mut i: usize = 0;
        while i < n
            invariant
                self.entries@ == old(self).entries@,
                n == self.entries@.len(),
                keys_unique(self.entries@),
                i <= n,
                key@ == k,
                record@ == v,
                forall|j: int| 0 <= j < i ==> self.entries@[j].0@ != k,
            decreases n - i,
        {
            let same: bool = self.entries[i].0.eq(&key);
            if same {
                let ghost s0 = self.entries@;
                self.entries.set(i, (key, record));
                proof {
                    lemma_replace_entry(s0, self.entries@, i as int);
                }
                return;
            }
            i = i + 1;
        }
        let ghost s0 = self.entries@;
        self.entries.push((key, record));
        proof {
            lemma_append_entry(s0, self.entries@);
        }
    }

    /// Merges `other` in, key by key; where both hold a key, `other`'s record stays.
    pub fn extend(&mut self, other: &Data)
        requires
            old(self).wf(),
            other.wf(),
        ensures
            final(self).wf(),
            final(self)@ == old(self)@.union_prefer_right(other@),
    {
        let ghost s = other.entries@;
        let n = other.entries.len();
        let mut i: usize = 0;
        proof {
            assert(entries_map(s.take(0)) =~= Map::<Seq<char>, PersonView>::empty());
            assert(old(self)@.union_prefer_right(entries_map(s.take(0))) =~= old(self)@);
        }
        while i < n
            invariant
                self.wf(),
                other.wf(),
                s == other.entries@,
                n == s.len(),
                i <= n,
                self@ == old(self)@.union_prefer_right(entries_map(s.take(i as int))),
            decreases n - i,
        {
            let key = other.entries[i].0.clone();
            let record = other.entries[i].1.duplicate();
            self.insert(key, record);
            proof {
                lemma_take_one_more(s, i as int);
                assert(old(self)@.union_prefer_right(entries_map(s.take(i + 1))) =~= old(self)@.union_prefer_right(entries_map(s.take(i as int))).insert(s[i as int].0@, s[i as int].1@));
            }
            i = i + 1;
        }
        proof {
            assert(s.take(n as int) =~= s);
        }
    }

    /// The record under `key`, if any.
    pub fn get(&self, key: &String) -> (r: Option<&Person>)
        requires
            self.wf(),
        ensures
            r is Some <==> self@.contains_key(key@),
            r matches Some(p) ==> p@ == self@[key@],
    {
        let n = self.entries.len();
        let mut i: usize = 0;
        while i < n
            invariant
                self.wf(),
                n == self.entries@.len(),
                i <= n,
                forall|j: int| 0 <= j < i ==> self.entries@[j].0@ != key@,
            decreases n - i,
        {
            let same: bool = self.entries[i].0.eq(key);
            if same {
                proof {
                    lemma_entries_map_at(self.entries@, i as int);
                }
                return Some(&self.entries[i].1);
            }
            i = i + 1;
        }
        None
    }

    /// The entries, each key once, in no particular order.
    pub fn entries(&self) -> (r: &Vec<(String, Person)>)
        requires
            self.wf(),
        ensures
            keys_unique(r@),
            entries_map(r@) == self@,
    {
        &self.entries
    }
}

/// One more entry of a list with distinct keys adds its key to the map of the prefix.
pub proof fn lemma_take_one_more(s: Seq<(String, Person)>, i: int)
    requires
        keys_unique(s),
        0 <= i < s.len(),
    ensures
        keys_unique(s.take(i + 1)),
        entries_map(s.take(i + 1)) == entries_map(s.take(i)).insert(s[i].0@, s[i].1@),
{
    let s0 = s.take(i);
    let s1 = s.take(i + 1);
    assert(s1 =~= s0.push(s[i]));
    assert forall|a: int, b: int| 0 <= a < s0.len() && 0 <= b < s0.len() && a != b implies
        #[trigger] s0[a].0@ != #[trigger] s0[b].0@ by {
        assert(s[a].0@ != s[b].0@);
    }
    assert forall|j: int| 0 <= j < s0.len() implies s0[j].0@ != s1.last().0@ by {
        assert(s[j].0@ != s[i].0@);
    }
    lemma_append_entry(s0, s1);
}

/// Overwriting the entry that holds a key puts the new record under that key.
proof fn lemma_replace_entry(s0: Seq<(String, Person)>, s1: Seq<(String, Person)>, i: int)
    requires
        keys_unique(s0),
        0 <= i < s0.len(),
        s1 == s0.update(i, s1[i]),
        s1[i].0@ == s0[i].0@,
    ensures
        keys_unique(s1),
        entries_map(s1) == entries_map(s0).insert(s1[i].0@, s1[i].1@),
{
    assert forall|a: int, b: int| 0 <= a < s1.len() && 0 <= b < s1.len() && a != b implies
        #[trigger] s1[a].0@ != #[trigger] s1[b].0@ by {
        assert(s0[a].0@ != s0[b].0@);
    }
    let k = s1[i].0@;
    let m = entries_map(s0).insert(k, s1[i].1@);
    assert forall|a: int| 0 <= a < s1.len() implies
        #[trigger] m.contains_key(s1[a].0@) && m[s1[a].0@] == s1[a].1@ by {
        if a != i {
            lemma_entries_map_at(s0, a);
        }
    }
    assert forall|kk: Seq<char>| #[trigger] m.contains_key(kk) implies
        exists|a: int| has_key_at(s1, kk, a) by {
        if kk == k {
            assert(has_key_at(s1, kk, i));
        } else {
            let a = choose|a: int| has_key_at(s0, kk, a);
            assert(has_key_at(s1, kk, a));
        }
    }
    lemma_entries_map_eq(s1, m);
}

/// Appending an entry under a key that no entry holds adds that key.
proof fn lemma_append_entry(s0: Seq<(String, Person)>, s1: Seq<(String, Person)>)
    requires
        keys_unique(s0),
        s1.len() == s0.len() + 1,
        s1 == s0.push(s1.last()),
        forall|j: int| 0 <= j < s0.len() ==> s0[j].0@ != s1.last().0@,
    ensures
        keys_unique(s1),
        entries_map(s1) == entries_map(s0).insert(s1.last().0@, s1.last().1@),
{
    let n = s0.len() as int;
    assert forall|a: int| 0 <= a < n implies s1[a] == #[trigger] s0[a] by {
    }
    assert forall|a: int, b: int| 0 <= a < s1.len() && 0 <= b < s1.len() && a != b implies
        #[trigger] s1[a].0@ != #[trigger] s1[b].0@ by {
        if a < n && b < n {
            assert(s0[a].0@ != s0[b].0@);
        } else if a < n {
            assert(s0[a].0@ != s1.last().0@);
        } else {
            assert(s0[b].0@ != s1.last().0@);
        }
    }
    let k = s1.last().0@;
    let m = entries_map(s0).insert(k, s1.last().1@);
    assert forall|a: int| 0 <= a < s1.len() implies
        #[trigger] m.contains_key(s1[a].0@) && m[s1[a].0@] == s1[a].1@ by {
        if a < n {
            lemma_entries_map_at(s0, a);
            assert(s0[a].0@ != k);
        }
    }
    assert forall|kk: Seq<char>| #[trigger] m.contains_key(kk) implies
        exists|a: int| has_key_at(s1, kk, a) by {
        if kk == k {
            assert(has_key_at(s1, kk, n));
        } else {
            let a = choose|a: int| has_key_at(s0, kk, a);
            assert(has_key_at(s1, kk, a));
        }
    }
    lemma_entries_map_eq(s1, m);
}

} // verus!
