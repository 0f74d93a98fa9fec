//! The client registry: the senders of every connected client, and the
//! broadcast that hands one chunk to each of them and prunes the dead ones.
use std::sync::mpsc::Sender;
use std::sync::Arc;
use vstd::prelude::*;

verus! {

/// One chunk of bytes read from the source, shared by every client that
/// receives it.
pub type Chunk = Arc<Vec<u8>>;

/// `std::sync::mpsc::Sender`, the sending side of a client's channel,
/// carried through as an opaque value.
#[verifier::external_type_specification]
#[verifier::external_body]
#[verifier::reject_recursive_types(T)]
pub struct ExSender<T>(Sender<T>);

/// The chunks sent so far through a sender, in the order they were sent.
pub uninterp spec fn sent_of(tx: Sender<Chunk>) -> Seq<Seq<u8>>;

/// Relies on `std::sync::mpsc::Sender::send`: on an unbounded channel it
/// enqueues without blocking; on success the chunk is in the client's queue,
/// behind those sent before, and it fails, handing nothing over, only when
/// the receiving side is gone. Which of the two happens depends on the other
/// task.
#[verifier::external_body]
fn send_chunk(tx: &mut Sender<Chunk>, chunk: Chunk) -> (sent: bool)
    ensures
        sent ==> sent_of(*final(tx)) == sent_of(*old(tx)).push(chunk@),
        !sent ==> sent_of(*final(tx)) == sent_of(*old(tx)),
{
    tx.send(chunk).is_ok()
}

/// Relies on `Arc::clone`: a new handle to the same bytes, no copy.
#[verifier::external_body]
fn share(chunk: &Chunk) -> (r: Chunk)
    ensures
        r@ == chunk@,
{
    Arc::clone(chunk)
}

/// The entries of `s` whose outcome in `d` is `true`, in their order.
pub open spec fn kept<A>(s: Seq<A>, d: Seq<bool>) -> Seq<A>
    decreases s.len(),
{
    if s.len() == 0 || d.len() == 0 {
        Seq::empty()
    } else {
        let rest = kept(s.drop_last(), d.drop_last());
        if d.last() {
            rest.push(s.last())
        } else {
            rest
        }
    }
}

/// How many outcomes in `d` are failures.
pub open spec fn failures(d: Seq<bool>) -> nat
    decreases d.len(),
{
    if d.len() == 0 {
        0
    } else {
        failures(d.drop_last()) + if d.last() { 0nat } else { 1nat }
    }
}

/// The abstract state of a registry.
pub struct RegistryView {
    /// The ids of the registered clients, in order of registration.
    pub ids: Seq<u64>,
    /// The id the next client will get.
    pub next_id: u64,
    /// For every client ever registered, the chunks sent to it by this
    /// registry so far.
    pub log: Map<u64, Seq<Seq<u8>>>,
    /// For each registered client, in the order of `ids`, everything sent
    /// through its sender (`sent_of`).
    pub channels: Seq<Seq<Seq<u8>>>,
    /// For each registered client, in the order of `ids`, what had been sent
    /// through its sender before it was registered.
    pub before: Seq<Seq<Seq<u8>>>,
}

impl RegistryView {
    /// Ids are unique, every registered client has a log, no log belongs
    /// to an id not yet handed out, and what went through each registered
    /// client's sender is what went before its registration followed by
    /// its log.
    pub open spec fn wf(self) -> bool {
        &&& self.ids.no_duplicates()
        &&& self.channels.len() == self.ids.len()
        &&& self.before.len() == self.ids.len()
        &&& forall|i: int|
            0 <= i < self.ids.len() ==> #[trigger] self.channels[i] == self.before[i]
                + self.log[self.ids[i]]
        &&& forall|i: int| 0 <= i < self.ids.len() ==> self.log.contains_key(#[trigger] self.ids[i])
        &&& forall|k: u64| self.log.contains_key(k) ==> k < self.next_id
    }
}

/// `post` is `pre` with a new client `id` registered, which has received
/// nothing yet.
pub open spec fn register_step(pre: RegistryView, post: RegistryView, id: u64) -> bool {
    &&& id == pre.next_id
    &&& !pre.log.contains_key(id)
    &&& post.ids == pre.ids.push(id)
    &&& post.next_id == pre.next_id + 1
    &&& post.log == pre.log.insert(id, Seq::empty())
    &&& post.channels == pre.channels.push(post.before.last())
    &&& post.before == pre.before.push(post.before.last())
}

/// `post` is `pre` after chunk `c` was offered to every registered client,
/// with `d` the outcome for each: the clients it reached stay registered and
/// have `c` appended to their log and to what went through their sender,
/// the others are removed, and no other log changes.
pub open spec fn broadcast_step(
    pre: RegistryView,
    post: RegistryView,
    c: Seq<u8>,
    d: Seq<bool>,
) -> bool {
    &&& d.len() == pre.ids.len()
    &&& post.ids == kept(pre.ids, d)
    &&& post.next_id == pre.next_id
    &&& post.channels == kept(pre.channels.map_values(|m: Seq<Seq<u8>>| m.push(c)), d)
    &&& post.before == kept(pre.before, d)
    &&& post.log.dom() == pre.log.dom()
    &&& forall|k: u64|
        #![trigger post.log[k]]
        post.log.contains_key(k) ==> post.log[k] == if post.ids.contains(k) {
            pre.log[k].push(c)
        } else {
            pre.log[k]
        }
}

/// A registered client: its id and the sending side of its channel.
struct Client {
    id: u64,
    tx: Sender<Chunk>,
    before: Ghost<Seq<Seq<u8>>>,
}

/// The senders of all clients whose writer has not yet been seen to fail.
pub struct Registry {
    clients: Vec<Client>,
    next_id: u64,
    log: Ghost<Map<u64, Seq<Seq<u8>>>>,
}

impl View for Registry {
    type V = RegistryView;

    closed spec fn view(&self) -> RegistryView {
        RegistryView {
            ids: self.clients@.map_values(|c: Client| c.id),
            next_id: self.next_id,
            log: self.log@,
            channels: self.clients@.map_values(|c: Client| sent_of(c.tx)),
            before: self.clients@.map_values(|c: Client| c.before@),
        }
    }
}


/// Taking one more pair of entries extends `kept` by at most that entry.
proof fn lemma_kept_take<A>(s: Seq<A>, d: Seq<bool>, j: int)
    requires
        0 <= j < s.len(),
        s.len() == d.len(),
    ensures
        kept(s.take(j + 1), d.take(j + 1)) == if d[j] {
            kept(s.take(j), d.take(j)).push(s[j])
        } else {
            kept(s.take(j), d.take(j))
        },
{
    assert(s.take(j + 1).drop_last() =~= s.take(j));
    assert(d.take(j + 1).drop_last() =~= d.take(j));
}

/// What `kept` holds, entry by entry.
pub proof fn lemma_kept_contains<A>(s: Seq<A>, d: Seq<bool>, k: A)
    requires
        s.len() == d.len(),
    ensures
        kept(s, d).contains(k) <==> exists|j: int| 0 <= j < s.len() && s[j] == k && d[j],
    decreases s.len(),
{
    if s.len() > 0 {
        let (s0, d0) = (s.drop_last(), d.drop_last());
        lemma_kept_contains(s0, d0, k);
        if exists|j: int| 0 <= j < s0.len() && s0[j] == k && d0[j] {
            let j = choose|j: int| 0 <= j < s0.len() && s0[j] == k && d0[j];
            assert(s[j] == k && d[j]);
        }
        let rest = kept(s0, d0);
        assert(kept(s, d) == if d.last() {
            rest.push(s.last())
        } else {
            rest
        });
        if kept(s, d).contains(k) {
            let i = choose|i: int| 0 <= i < kept(s, d).len() && kept(s, d)[i] == k;
            if i < rest.len() {
                assert(rest[i] == k);
                let j = choose|j: int| 0 <= j < s0.len() && s0[j] == k && d0[j];
                assert(s[j] == k && d[j]);
            } else {
                assert(s[s.len() - 1] == k && d[s.len() - 1]);
            }
        }
        if exists|j: int| 0 <= j < s.len() && s[j] == k && d[j] {
            let j = choose|j: int| 0 <= j < s.len() && s[j] == k && d[j];
            if j < s0.len() {
                assert(s0[j] == k && d0[j]);
                assert(rest.contains(k));
                let i = choose|i: int| 0 <= i < rest.len() && rest[i] == k;
                assert(kept(s, d)[i] == k);
            } else {
                let r = kept(s, d);
                assert(r[r.len() - 1] == k);
            }
        }
    }
}

/// `kept` keeps exactly the entries whose outcome is `true`, and drops one
/// entry per failure.
pub proof fn lemma_kept_len<A>(s: Seq<A>, d: Seq<bool>)
    requires
        s.len() == d.len(),
    ensures
        kept(s, d).len() + failures(d) == s.len(),
    decreases s.len(),
{
    if s.len() > 0 {
        lemma_kept_len(s.drop_last(), d.drop_last());
    }
}

/// Keeping some entries of a sequence without duplicates gives one without
/// duplicates.
pub proof fn lemma_kept_unique<A>(s: Seq<A>, d: Seq<bool>)
    requires
        s.len() == d.len(),
        s.no_duplicates(),
    ensures
        kept(s, d).no_duplicates(),
    decreases s.len(),
{
    if s.len() > 0 {
        let (s0, d0) = (s.drop_last(), d.drop_last());
        lemma_kept_unique(s0, d0);
        if d.last() {
            lemma_kept_contains(s0, d0, s.last());
            if kept(s0, d0).contains(s.last()) {
                let j = choose|j: int| 0 <= j < s0.len() && s0[j] == s.last() && d0[j];
                assert(s[j] == s[s.len() - 1]);
            }
        }
    }
}

/// Keeping entries and then mapping them is mapping and then keeping.
pub proof fn lemma_kept_map<A, B>(s: Seq<A>, d: Seq<bool>, f: spec_fn(A) -> B)
    requires
        s.len() == d.len(),
    ensures
        kept(s, d).map_values(f) == kept(s.map_values(f), d),
    decreases s.len(),
{
    if s.len() > 0 {
        let (s0, d0) = (s.drop_last(), d.drop_last());
        lemma_kept_map(s0, d0, f);
        assert(s.map_values(f).drop_last() =~= s0.map_values(f));
        if d.last() {
            assert(kept(s0, d0).push(s.last()).map_values(f) =~= kept(s0, d0).map_values(f).push(
                f(s.last()),
            ));
        }
    } else {
        assert(kept(s, d).map_values(f) =~= Seq::<B>::empty());
    }
}

/// Keeping the same outcomes of two sequences that agree wherever the
/// outcome is `true` gives the same result.
proof fn lemma_kept_agree<A>(a: Seq<A>, b: Seq<A>, d: Seq<bool>)
    requires
        a.len() == d.len(),
        b.len() == d.len(),
        forall|i: int| 0 <= i < d.len() && d[i] ==> a[i] == b[i],
    ensures
        kept(a, d) == kept(b, d),
    decreases d.len(),
{
    if d.len() > 0 {
        lemma_kept_agree(a.drop_last(), b.drop_last(), d.drop_last());
    }
}

impl Client {
    /// What went through this client's sender is what went before its
    /// registration followed by its entry of `log`.
    spec fn tied(self, log: Map<u64, Seq<Seq<u8>>>) -> bool {
        sent_of(self.tx) == self.before@ + log[self.id]
    }
}

impl Registry {
    /// Every client's sender is tied to its log, and the view is
    /// well formed.
    proof fn lemma_wf_from_tied(&self)
        requires
            self@.ids.no_duplicates(),
            forall|i: int|
                0 <= i < self@.ids.len() ==> self.log@.contains_key(#[trigger] self@.ids[i]),
            forall|k: u64| self.log@.contains_key(k) ==> k < self.next_id,
            forall|i: int|
                0 <= i < self.clients@.len() ==> (#[trigger] self.clients@[i]).tied(self.log@),
        ensures
            self@.wf(),
    {
        assert forall|i: int| 0 <= i < self@.ids.len() implies #[trigger] self@.channels[i]
            == self@.before[i] + self@.log[self@.ids[i]] by {
            assert(self.clients@[i].tied(self.log@));
        }
    }

    /// An empty registry.
    pub fn new() -> (r: Registry)
        ensures
            r@.ids == Seq::<u64>::empty(),
            r@.next_id == 0,
            r@.log == Map::<u64, Seq<Seq<u8>>>::empty(),
            r@.wf(),
    {
        let r = Registry { clients: Vec::new(), next_id: 0, log: Ghost(Map::empty()) };
        assert(r@.ids =~= Seq::<u64>::empty());
        assert(r@.channels =~= Seq::<Seq<Seq<u8>>>::empty());
        assert(r@.before =~= Seq::<Seq<Seq<u8>>>::empty());
        r
    }

    /// How many clients are registered.
    pub fn len(&self) -> (n: usize)
        ensures
            n == self@.ids.len(),
    {
        self.clients.len()
    }

    /// The ids of the registered clients, in order of registration.
    pub fn ids(&self) -> (r: Vec<u64>)
        ensures
            r@ == self@.ids,
    {
        let mut r: Vec<u64> = Vec::new();
        let mut j: usize = 0;
        while j < self.clients.len()
            invariant
                j <= self.clients@.len(),
                r@ == self@.ids.take(j as int),
            decreases self.clients@.len() - j,
        {
            r.push(self.clients[j].id);
            j = j + 1;
            assert(r@ =~= self@.ids.take(j as int));
        }
        assert(self@.ids.take(j as int) =~= self@.ids);
        r
    }

    /// Whether no client is registered.
    pub fn is_empty(&self) -> (b: bool)
        ensures
            b == (self@.ids.len() == 0),
    {
        self.clients.len() == 0
    }

    /// Registers the sending side of a new client's channel and returns the
    /// client's id; `None`, with nothing changed, once every id is taken.
    pub fn register(&mut self, tx: Sender<Chunk>) -> (id: Option<u64>)
        requires
            old(self)@.wf(),
        ensures
            final(self)@.wf(),
            old(self)@.next_id == u64::MAX ==> id is None && final(self)@ == old(self)@,
            old(self)@.next_id < u64::MAX ==> id is Some && register_step(
                old(self)@,
                final(self)@,
                id->0,
            ) && final(self)@.before.last() == sent_of(tx),
    {
        if self.next_id == u64::MAX {
            return None;
        }
        let ghost pre = self@;
        let ghost cl0 = self.clients@;
        let ghost b = sent_of(tx);
        let id = self.next_id;
        self.clients.push(Client { id, tx, before: Ghost(b) });
        self.next_id = id + 1;
        self.log = Ghost(self.log@.insert(id, Seq::empty()));
        proof {
            assert(self@.ids =~= pre.ids.push(id));
            assert(self@.channels =~= pre.channels.push(b));
            assert(self@.before =~= pre.before.push(b));
            assert(!pre.log.contains_key(id));
            assert forall|i: int| 0 <= i < self@.ids.len() implies self@.log.contains_key(
                #[trigger] self@.ids[i],
            ) by {
                if i < pre.ids.len() {
                    assert(self@.ids[i] == pre.ids[i]);
                }
            }
            assert(self@.ids.no_duplicates()) by {
                assert forall|a: int, c: int|
                    0 <= a < self@.ids.len() && 0 <= c < self@.ids.len() && a != c implies self@.ids[a]
                    != self@.ids[c] by {
                    if a < pre.ids.len() {
                        assert(pre.log.contains_key(pre.ids[a]));
                    }
                    if c < pre.ids.len() {
                        assert(pre.log.contains_key(pre.ids[c]));
                    }
                }
            }
            assert forall|i: int| 0 <= i < self.clients@.len() implies (#[trigger] self.clients@[
                i
            ]).tied(self.log@) by {
                if i < cl0.len() {
                    assert(pre.channels[i] == pre.before[i] + pre.log[pre.ids[i]]);
                    assert(self.clients@[i] == cl0[i]);
                    assert(pre.log.contains_key(pre.ids[i]));
                    assert(cl0[i].id != id);
                } else {
                    assert(b + Seq::<Seq<u8>>::empty() =~= b);
                }
            }
            self.lemma_wf_from_tied();
        }
        Some(id)
    }

    /// Removes the clients whose outcome in `delivered` is `false` and keeps
    /// the others, in their order; `delivered[i]` stands for the i-th
    /// registered client. Logs and senders are left as they are.
    pub fn retain_delivered(&mut self, delivered: &Vec<bool>)
        requires
            old(self)@.wf(),
            delivered@.len() == old(self)@.ids.len(),
        ensures
            final(self)@.wf(),
            final(self)@.ids == kept(old(self)@.ids, delivered@),
            final(self)@.channels == kept(old(self)@.channels, delivered@),
            final(self)@.before == kept(old(self)@.before, delivered@),
            final(self)@.next_id == old(self)@.next_id,
            final(self)@.log == old(self)@.log,
    {
        let ghost pre = self@;
        let ghost s = self.clients@;
        let ghost d = delivered@;
        let mut i: usize = 0;
        let mut j: usize = 0;
        while j < delivered.len()
            invariant
                j <= delivered@.len(),
                d == delivered@,
                d.len() == s.len(),
                self.clients@ == kept(s.take(j as int), d.take(j as int)) + s.skip(j as int),
                i == kept(s.take(j as int), d.take(j as int)).len(),
                self.next_id == pre.next_id,
                self.log@ == pre.log,
            decreases delivered@.len() - j,
        {
            proof {
                lemma_kept_take(s, d, j as int);
            }
            let ghost before = self.clients@;
            let ghost k0 = kept(s.take(j as int), d.take(j as int));
            assert(s.skip(j as int) =~= seq![s[j as int]] + s.skip(j + 1));
            let n: usize = self.clients.len();
            assert(i < n);
            if delivered[j] {
                i = i + 1;
                assert(self.clients@ =~= k0.push(s[j as int]) + s.skip(j + 1));
            } else {
                self.clients.remove(i);
                assert(self.clients@ =~= k0 + s.skip(j + 1));
            }
            j = j + 1;
        }
        proof {
            assert(s.take(s.len() as int) =~= s);
            assert(d.take(d.len() as int) =~= d);
            assert(s.skip(s.len() as int) =~= Seq::<Client>::empty());
            assert(self.clients@ =~= kept(s, d));
            lemma_kept_map(s, d, |c: Client| c.id);
            lemma_kept_map(s, d, |c: Client| sent_of(c.tx));
            lemma_kept_map(s, d, |c: Client| c.before@);
            assert(self@.ids == kept(pre.ids, d));
            lemma_kept_unique(pre.ids, d);
            assert forall|x: int| 0 <= x < self.clients@.len() implies (#[trigger] self.clients@[
                x
            ]).tied(self.log@) && self.log@.contains_key(self.clients@[x].id) by {
                let c = self.clients@[x];
                assert(kept(s, d).contains(c));
                lemma_kept_contains(s, d, c);
                let y = choose|y: int| 0 <= y < s.len() && s[y] == c && d[y];
                assert(pre.channels[y] == pre.before[y] + pre.log[pre.ids[y]]);
                assert(pre.log.contains_key(pre.ids[y]));
            }
            assert forall|x: int| 0 <= x < self@.ids.len() implies self.log@.contains_key(
                #[trigger] self@.ids[x],
            ) by {
                assert(self@.ids[x] == self.clients@[x].id);
            }
            self.lemma_wf_from_tied();
        }
    }

    /// Offers `chunk` to every registered client, without copying it and
    /// without blocking, and removes in the same pass each client that could
    /// not take it. The result tells, for each client registered before the
    /// call, in order, whether it took the chunk.
    pub fn broadcast(&mut self, chunk: &Chunk) -> (delivered: Vec<bool>)
        requires
            old(self)@.wf(),
        ensures
            final(self)@.wf(),
            broadcast_step(old(self)@, final(self)@, chunk@, delivered@),
            forall|j: int|
                0 <= j < old(self)@.ids.len() ==> (delivered@[j] <==> final(self)@.ids.contains(
                    #[trigger] old(self)@.ids[j],
                )),
            final(self)@.ids.len() + failures(delivered@) == old(self)@.ids.len(),
    {
        let ghost pre = self@;
        let ghost cl0 = self.clients@;
        let ghost c = chunk@;
        let mut delivered: Vec<bool> = Vec::new();
        let mut j: usize = 0;
        while j < self.clients.len()
            invariant
                pre.wf(),
                pre == old(self)@,
                cl0 == old(self).clients@,
                c == chunk@,
                self.clients@.len() == cl0.len(),
                j <= cl0.len(),
                delivered@.len() == j,
                self.next_id == pre.next_id,
                self.log@.dom() == pre.log.dom(),
                forall|i: int|
                    0 <= i < cl0.len() ==> (#[trigger] self.clients@[i]).id == cl0[i].id
                        && self.clients@[i].before == cl0[i].before,
                forall|i: int| j <= i < cl0.len() ==> #[trigger] self.clients@[i] == cl0[i],
                forall|i: int|
                    0 <= i < j ==> sent_of(#[trigger] self.clients@[i].tx) == if delivered@[i] {
                        sent_of(cl0[i].tx).push(c)
                    } else {
                        sent_of(cl0[i].tx)
                    },
                forall|i: int|
                    0 <= i < j ==> #[trigger] self.log@[cl0[i].id] == if delivered@[i] {
                        pre.log[cl0[i].id].push(c)
                    } else {
                        pre.log[cl0[i].id]
                    },
                forall|k: u64|
                    #![trigger self.log@[k]]
                    self.log@.contains_key(k) && !pre.ids.take(j as int).contains(k)
                        ==> self.log@[k] == pre.log[k],
            decreases cl0.len() - j,
        {
            let ghost id = cl0[j as int].id;
            assert(pre.ids[j as int] == id);
            assert(pre.log.contains_key(id));
            assert(!pre.ids.take(j as int).contains(id)) by {
                if pre.ids.take(j as int).contains(id) {
                    let x = choose|x: int| 0 <= x < j && pre.ids.take(j as int)[x] == id;
                    assert(pre.ids[x] == pre.ids[j as int]);
                }
            }
            let sent = send_chunk(&mut self.clients[j].tx, share(chunk));
            if sent {
                self.log = Ghost(self.log@.insert(id, self.log@[id].push(c)));
            }
            delivered.push(sent);
            proof {
                assert forall|k: u64|
                    #![trigger self.log@[k]]
                    self.log@.contains_key(k) && !pre.ids.take(j + 1).contains(k)
                        implies self.log@[k] == pre.log[k] by {
                    assert(pre.ids.take(j + 1)[j as int] == id);
                    if pre.ids.take(j as int).contains(k) {
                        let x = choose|x: int| 0 <= x < j && pre.ids.take(j as int)[x] == k;
                        assert(pre.ids.take(j + 1)[x] == k);
                    }
                }
                assert forall|i: int| 0 <= i < j + 1 implies #[trigger] self.log@[cl0[i].id]
                    == if delivered@[i] {
                    pre.log[cl0[i].id].push(c)
                } else {
                    pre.log[cl0[i].id]
                } by {
                    if i < j {
                        assert(pre.ids[i] != pre.ids[j as int]);
                    }
                }
            }
            j = j + 1;
        }
        let ghost d = delivered@;
        proof {
            assert(pre.ids.take(cl0.len() as int) =~= pre.ids);
            assert forall|i: int| 0 <= i < self.clients@.len() implies (#[trigger] self.clients@[
                i
            ]).tied(self.log@) by {
                assert(pre.channels[i] == pre.before[i] + pre.log[pre.ids[i]]);
                assert(self.log@[cl0[i].id] == if d[i] {
                    pre.log[cl0[i].id].push(c)
                } else {
                    pre.log[cl0[i].id]
                });
                if d[i] {
                    assert(pre.before[i] + pre.log[pre.ids[i]].push(c) =~= (pre.before[i]
                        + pre.log[pre.ids[i]]).push(c));
                }
            }
            assert(self@.ids =~= pre.ids);
            assert forall|i: int| 0 <= i < self@.ids.len() implies self.log@.contains_key(
                #[trigger] self@.ids[i],
            ) by {
                assert(pre.log.contains_key(pre.ids[i]));
            }
            self.lemma_wf_from_tied();
        }
        let ghost mid = self@;
        self.retain_delivered(&delivered);
        proof {
            let post = self@;
            let pushed = pre.channels.map_values(|m: Seq<Seq<u8>>| m.push(c));
            assert forall|i: int| 0 <= i < d.len() && d[i] implies mid.channels[i] == pushed[i] by {}
            lemma_kept_agree(mid.channels, pushed, d);
            assert(mid.before =~= pre.before);
            lemma_kept_len(pre.ids, d);
            assert forall|j: int| 0 <= j < pre.ids.len() implies (d[j] <==> post.ids.contains(
                #[trigger] pre.ids[j],
            )) by {
                lemma_kept_contains(pre.ids, d, pre.ids[j]);
                if post.ids.contains(pre.ids[j]) {
                    let y = choose|y: int| 0 <= y < pre.ids.len() && pre.ids[y] == pre.ids[j] && d[y];
                    assert(y == j);
                }
            }
            assert forall|k: u64| #![trigger post.log[k]] post.log.contains_key(k) implies post.log[k]
                == if post.ids.contains(k) {
                pre.log[k].push(c)
            } else {
                pre.log[k]
            } by {
                if pre.ids.contains(k) {
                    let x = choose|x: int| 0 <= x < pre.ids.len() && pre.ids[x] == k;
                    assert(cl0[x].id == k);
                    assert(self.log@[cl0[x].id] == mid.log[cl0[x].id]);
                } else {
                    assert(!pre.ids.take(cl0.len() as int).contains(k));
                    lemma_kept_contains(pre.ids, d, k);
                }
            }
        }
        delivered
    }
}

} // verus!
