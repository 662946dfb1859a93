use vstd::prelude::*;

use crate::codec::{decode, decoded, DecodeError};
use crate::model::{Call, CallView, Data, PersonView};
use crate::store::selected;

verus! {

/// The replies merged in order: a key takes the record of the last reply that holds it.
pub open spec fn merged(replies: Seq<Map<Seq<char>, PersonView>>) -> Map<Seq<char>, PersonView>
    decreases replies.len(),
{
    if replies.len() == 0 {
        Map::empty()
    } else {
        merged(replies.drop_last()).union_prefer_right(replies.last())
    }
}

/// A router: a fixed list of worker ports, attached before serving.
pub struct Server {
    port: u16,
    workers: Vec<u16>,
}

impl Server {
    pub closed spec fn spec_port(&self) -> u16 {
        self.port
    }

    /// The attached worker ports, in attach order.
    pub closed spec fn spec_workers(&self) -> Seq<u16> {
        self.workers@
    }

    /// A router for `port` with no worker attached.
    pub fn new(port: u16) -> (r: Server)
        ensures
            r.spec_port() == port,
            r.spec_workers() == Seq::<u16>::empty(),
    {
        Server { port, workers: Vec::new() }
    }

    /// Adds the worker on `port` after those attached before.
    pub fn attach_worker(&mut self, port: u16)
        ensures
            final(self).spec_port() == old(self).spec_port(),
            final(self).spec_workers() == old(self).spec_workers().push(port),
    {
        self.workers.push(port);
    }

    /// The port this router listens on.
    pub fn port(&self) -> (r: u16)
        ensures
            r == self.spec_port(),
    {
        self.port
    }

    /// The attached worker ports, in attach order.
    pub fn workers(&self) -> (r: &Vec<u16>)
        ensures
            r@ == self.spec_workers(),
    {
        &self.workers
    }

    /// Starts the fan-out of the call that a received datagram holds.
    pub fn begin(&self, buf: &[u8]) -> (r: Result<Dispatch, DecodeError>)
        ensures
            r matches Ok(d) ==> d.wf() && decoded(buf@) == Ok::<CallView, DecodeError>(d.call())
                && d.workers() == self.spec_workers() && d.replies() == Seq::<
                Map<Seq<char>, PersonView>,
            >::empty(),
            r matches Err(e) ==> decoded(buf@) == Err::<CallView, DecodeError>(e),
    {
        match decode(buf) {
            Ok(call) => Ok(self.start(call)),
            Err(e) => Err(e),
        }
    }

    /// Starts the fan-out of `call` over the attached workers.
    pub fn start(&self, call: Call) -> (r: Dispatch)
        ensures
            r.wf(),
            r.call() == call@,
            r.workers() == self.spec_workers(),
            r.replies() == Seq::<Map<Seq<char>, PersonView>>::empty(),
    {
        let acc = Data::new();
        proof {
            assert(merged(Seq::<Map<Seq<char>, PersonView>>::empty()) == acc@);
        }
        Dispatch {
            call,
            workers: self.workers.clone(),
            next: 0,
            acc,
            replies: Ghost(Seq::empty()),
        }
    }
}

/// Why a fan-out gave up.
#[derive(Debug, Clone, Copy, PartialEq, Eq, Structural)]
pub enum DispatchError {
    /// The worker on this port did not answer in time.
    PeerUnreachable(u16),
}

/// What a fan-out asks for next.
#[derive(Debug, PartialEq, Eq)]
pub enum Step {
    /// Send the call to the worker on this port and hand its reply back.
    Ask(u16),
    /// Every worker has replied: the merged result is ready.
    Done,
}

/// One call being fanned out: the workers are asked one at a time, in attach
/// order, and each reply is merged into the result as it comes.
pub struct Dispatch {
    call: Call,
    workers: Vec<u16>,
    next: usize,
    acc: Data,
    replies: Ghost<Seq<Map<Seq<char>, PersonView>>>,
}

impl Dispatch {
    pub closed spec fn wf(&self) -> bool {
        &&& self.acc.wf()
        &&& self.next <= self.workers@.len()
        &&& self.replies@.len() == self.next
        &&& self.acc@ == merged(self.replies@)
    }

    /// The call being fanned out.
    pub closed spec fn call(&self) -> CallView {
        self.call@
    }

    /// The worker ports, in the order they are asked.
    pub closed spec fn workers(&self) -> Seq<u16> {
        self.workers@
    }

    /// The replies received so far, in the order they came.
    pub closed spec fn replies(&self) -> Seq<Map<Seq<char>, PersonView>> {
        self.replies@
    }

    /// The call being fanned out.
    pub fn get_call(&self) -> (r: &Call)
        ensures
            r@ == self.call(),
    {
        &self.call
    }

    /// The worker to ask next, or `Done` once every worker has replied.
    pub fn next_step(&self) -> (r: Step)
        requires
            self.wf(),
        ensures
            self.replies().len() < self.workers().len() ==> r == Step::Ask(
                self.workers()[self.replies().len() as int],
            ),
            self.replies().len() == self.workers().len() ==> r == Step::Done,
    {
        if self.next < self.workers.len() {
            Step::Ask(self.workers[self.next])
        } else {
            Step::Done
        }
    }

    /// Merges the reply of the worker last asked.
    pub fn on_reply(&mut self, reply: &Data)
        requires
            old(self).wf(),
            reply.wf(),
            old(self).replies().len() < old(self).workers().len(),
        ensures
            final(self).wf(),
            final(self).call() == old(self).call(),
            final(self).workers() == old(self).workers(),
            final(self).replies() == old(self).replies().push(reply@),
    {
        let total = self.workers.len();
        self.acc.extend(reply);
        assert(self.next < total);
        self.next = self.next + 1;
        proof {
            let rs = self.replies@.push(reply@);
            assert(rs.drop_last() =~= self.replies@);
            self.replies = Ghost(rs);
        }
    }

    /// The error to report when the worker asked last does not answer.
    pub fn give_up(&self) -> (r: DispatchError)
        requires
            self.wf(),
            self.replies().len() < self.workers().len(),
        ensures
            r == DispatchError::PeerUnreachable(self.workers()[self.replies().len() as int]),
    {
        DispatchError::PeerUnreachable(self.workers[self.next])
    }

    /// The merged result, once every worker has replied.
    pub fn finish(self) -> (r: Data)
        requires
            self.wf(),
            self.replies().len() == self.workers().len(),
        ensures
            r.wf(),
            r@ == merged(self.replies()),
    {
        self.acc
    }
}

/// A merged result holds a key exactly when some reply holds it.
pub proof fn lemma_merged_keys(replies: Seq<Map<Seq<char>, PersonView>>, k: Seq<char>)
    ensures
        merged(replies).contains_key(k) <==> exists|j: int|
            0 <= j < replies.len() && #[trigger] replies[j].contains_key(k),
    decreases replies.len(),
{
    if replies.len() > 0 {
        let init = replies.drop_last();
        lemma_merged_keys(init, k);
        if merged(replies).contains_key(k) && !replies.last().contains_key(k) {
            let j = choose|j: int| 0 <= j < init.len() && #[trigger] init[j].contains_key(k);
            assert(replies[j] == init[j]);
        }
        if exists|j: int| 0 <= j < replies.len() && #[trigger] replies[j].contains_key(k) {
            let j = choose|j: int| 0 <= j < replies.len() && #[trigger] replies[j].contains_key(k);
            if j < replies.len() - 1 {
                assert(init[j] == replies[j]);
            }
        }
    }
}

/// Last write wins: where several replies hold a key, the merged result keeps
/// the record of the last of them, in attach order.
pub proof fn lemma_last_write_wins(
    replies: Seq<Map<Seq<char>, PersonView>>,
    j: int,
    k: Seq<char>,
)
    requires
        0 <= j < replies.len(),
        replies[j].contains_key(k),
        forall|l: int| j < l < replies.len() ==> !(#[trigger] replies[l].contains_key(k)),
    ensures
        merged(replies).contains_key(k),
        merged(replies)[k] == replies[j][k],
    decreases replies.len(),
{
    let init = replies.drop_last();
    if j < replies.len() - 1 {
        assert(!replies[replies.len() - 1].contains_key(k));
        assert forall|l: int| j < l < init.len() implies !(#[trigger] init[l].contains_key(k)) by {
            assert(init[l] == replies[l]);
        }
        lemma_last_write_wins(init, j, k);
    }
}

/// Fanning the same call out twice over the same shards, each worker answering
/// by its own records, gives the same merged result both times: collisions are
/// settled by attach order alone.
pub proof fn lemma_dispatch_deterministic(
    shards: Seq<Map<Seq<char>, PersonView>>,
    c: CallView,
    first: Seq<Map<Seq<char>, PersonView>>,
    second: Seq<Map<Seq<char>, PersonView>>,
)
    requires
        first.len() == shards.len(),
        second.len() == shards.len(),
        forall|i: int| 0 <= i < shards.len() ==> #[trigger] first[i] == selected(shards[i], c),
        forall|i: int| 0 <= i < shards.len() ==> #[trigger] second[i] == selected(shards[i], c),
    ensures
        merged(first) == merged(second),
{
    assert(first =~= second);
}

} // verus!
