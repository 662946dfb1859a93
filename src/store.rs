use vstd::prelude::*;

use crate::codec::{decode, decoded, DecodeError};
use crate::model::{
    entries_map, keys_unique, lemma_take_one_more, selects, Call, CallView, Data, PersonView,
};

verus! {

/// The records of `m` that answer `c`, under their keys.
pub open spec fn selected(m: Map<Seq<char>, PersonView>, c: CallView) -> Map<
    Seq<char>,
    PersonView,
> {
    Map::new(|k: Seq<char>| m.contains_key(k) && selects(c, m[k]), |k: Seq<char>| m[k])
}

/// A worker: one shard of records, answered by local filtering.
pub struct Worker {
    data: Data,
    port: u16,
}

impl Worker {
    pub closed spec fn wf(&self) -> bool {
        self.data.wf()
    }

    /// The shard this worker holds.
    pub closed spec fn records(&self) -> Map<Seq<char>, PersonView> {
        self.data@
    }

    pub closed spec fn spec_port(&self) -> u16 {
        self.port
    }

    /// A worker that serves `data` on `port`.
    pub fn new(port: u16, data: Data) -> (r: Worker)
        requires
            data.wf(),
        ensures
            r.wf(),
            r.records() == data@,
            r.spec_port() == port,
    {
        Worker { data, port }
    }

    /// The port this worker listens on.
    pub fn port(&self) -> (r: u16)
        ensures
            r == self.spec_port(),
    {
        self.port
    }

    /// The records that answer `call`, under their keys; the shard is left as it is.
    pub fn query(&self, call: &Call) -> (r: Data)
        requires
            self.wf(),
        ensures
            r.wf(),
            r@ == selected(self.records(), call@),
    {
        let entries = self.data.entries();
        let ghost s = entries@;
        let ghost c = call@;
        let n = entries.len();
        let mut out = Data::new();
        let mut i: usize = 0;
        proof {
            assert(selected(entries_map(s.take(0)), c) =~= Map::<Seq<char>, PersonView>::empty());
        }
        while i < n
            invariant
                keys_unique(s),
                c == call@,
                s == entries@,
                n == s.len(),
                i <= n,
                out.wf(),
                out@ == selected(entries_map(s.take(i as int)), c),
            decreases n - i,
        {
            proof {
                lemma_take_one_more(s, i as int);
                lemma_selected_insert(entries_map(s.take(i as int)), s[i as int].0@, s[i as int].1@, c);
            }
            if entries[i].1.answers(call) {
                out.insert(entries[i].0.clone(), entries[i].1.duplicate());
            }
            i = i + 1;
        }
        proof {
            assert(s.take(n as int) =~= s);
        }
        out
    }

    /// Answers one received datagram: the call it holds, run against this shard.
    pub fn handle(&self, buf: &[u8]) -> (r: Result<Data, DecodeError>)
        requires
            self.wf(),
        ensures
            r matches Ok(d) ==> d.wf() && (decoded(buf@) matches Ok(c) && d@ == selected(
                self.records(),
                c,
            )),
            r matches Err(e) ==> decoded(buf@) == Err::<CallView, DecodeError>(e),
            decoded(buf@) is Ok ==> r is Ok,
    {
        match decode(buf) {
            Ok(call) => Ok(self.query(&call)),
            Err(e) => Err(e),
        }
    }

    /// The records whose name is `name`.
    pub fn get_by_name(&self, name: String) -> (r: Data)
        requires
            self.wf(),
        ensures
            r.wf(),
            r@ == selected(self.records(), CallView::Name { name: name@ }),
    {
        self.query(&Call::Name { name })
    }

    /// The records whose location is `location`.
    pub fn get_by_location(&self, location: String) -> (r: Data)
        requires
            self.wf(),
        ensures
            r.wf(),
            r@ == selected(self.records(), CallView::Location { location: location@ }),
    {
        self.query(&Call::Location { location })
    }

    /// The records whose location is `location` and whose year is `year`.
    pub fn get_by_year(&self, location: String, year: u16) -> (r: Data)
        requires
            self.wf(),
        ensures
            r.wf(),
            r@ == selected(self.records(), CallView::Year { location: location@, year }),
    {
        self.query(&Call::Year { location, year })
    }
}

/// Querying a result set again with the same call gives it back unchanged.
pub proof fn lemma_query_idempotent(m: Map<Seq<char>, PersonView>, c: CallView)
    ensures
        selected(selected(m, c), c) == selected(m, c),
{
    assert(selected(selected(m, c), c) =~= selected(m, c));
}

/// Selecting from a map with one key more: the key stays exactly when its record answers.
proof fn lemma_selected_insert(
    m: Map<Seq<char>, PersonView>,
    k: Seq<char>,
    v: PersonView,
    c: CallView,
)
    requires
        !m.contains_key(k),
    ensures
        selects(c, v) ==> selected(m.insert(k, v), c) == selected(m, c).insert(k, v),
        !selects(c, v) ==> selected(m.insert(k, v), c) == selected(m, c),
{
    if selects(c, v) {
        assert(selected(m.insert(k, v), c) =~= selected(m, c).insert(k, v));
    } else {
        assert(selected(m.insert(k, v), c) =~= selected(m, c));
    }
}

} // verus!
