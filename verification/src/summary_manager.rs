//! The clients that receive the aggregated book.
//!
//! Each client has an identifier and the sending end of its summary stream. A
//! broadcast sends a summary to every client; a client whose stream was closed
//! is removed.
use vstd::prelude::*;
use tokio::sync::mpsc::UnboundedSender;
use crate::data_types::Summary;

verus! {

/// The sending end of a client's summary stream.
pub type SummaryTx = UnboundedSender<Summary>;

/// The identifier of a client: the 128 bits of its UUID.
pub type ClientId = u128;

/// Sends `summary` on `tx` (`tokio::sync::mpsc::UnboundedSender::send`) and
/// tells whether it was accepted, with a ghost copy of the summary handed to
/// the send. The send fails when the receiving end has been dropped, which
/// nothing here can see, so nothing is stated of whether it is accepted.
#[verifier::external_body]
fn send_summary(tx: &SummaryTx, summary: Summary) -> (r: (bool, Ghost<Summary>))
    ensures
        r.1@ == summary,
{
    let handed = Ghost(summary);
    (tx.send(summary).is_ok(), handed)
}

/// Whether client `id` is in the list.
pub open spec fn has_client(s: Seq<(ClientId, SummaryTx)>, id: ClientId) -> bool {
    exists|i: int| 0 <= i < s.len() && #[trigger] s[i].0 == id
}

/// Whether no client occurs twice in the list.
pub open spec fn distinct_clients(s: Seq<(ClientId, SummaryTx)>) -> bool {
    forall|i: int, j: int| 0 <= i < j < s.len() ==> #[trigger] s[i].0 != #[trigger] s[j].0
}

/// The map from client to sender that a list of distinct clients stands for.
pub open spec fn clients_map(s: Seq<(ClientId, SummaryTx)>) -> Map<ClientId, SummaryTx> {
    Map::new(
        |id: ClientId| has_client(s, id),
        |id: ClientId| s[choose|i: int| 0 <= i < s.len() && #[trigger] s[i].0 == id].1,
    )
}

proof fn lemma_clients_map_at(s: Seq<(ClientId, SummaryTx)>, i: int)
    requires
        distinct_clients(s),
        0 <= i < s.len(),
    ensures
        clients_map(s).dom().contains(s[i].0),
        clients_map(s)[s[i].0] == s[i].1,
{
    let id = s[i].0;
    assert(has_client(s, id));
    let j = choose|j: int| 0 <= j < s.len() && #[trigger] s[j].0 == id;
    if j != i {
        if j < i {
            assert(s[j].0 != s[i].0);
        } else {
            assert(s[i].0 != s[j].0);
        }
    }
}

/// Two lists of distinct clients with the same clients, each with the same
/// sender, stand for the same map.
proof fn lemma_clients_map_ext(s: Seq<(ClientId, SummaryTx)>, m: Map<ClientId, SummaryTx>)
    requires
        distinct_clients(s),
        forall|id: ClientId| m.dom().contains(id) <==> has_client(s, id),
        forall|i: int| 0 <= i < s.len() ==> #[trigger] m[s[i].0] == s[i].1,
    ensures
        clients_map(s) == m,
{
    assert forall|id: ClientId| #[trigger] clients_map(s).dom().contains(id) implies clients_map(
        s,
    )[id] == m[id] by {
        let i = choose|i: int| 0 <= i < s.len() && #[trigger] s[i].0 == id;
        lemma_clients_map_at(s, i);
    }
    assert(clients_map(s) =~= m);
}

/// The clients served with summaries.
pub struct SummaryManager {
    clients: Vec<(ClientId, SummaryTx)>,
    handed: Ghost<Seq<(ClientId, Summary)>>,
}

impl View for SummaryManager {
    type V = Map<ClientId, SummaryTx>;

    closed spec fn view(&self) -> Map<ClientId, SummaryTx> {
        clients_map(self.clients@)
    }
}

impl SummaryManager {
    #[verifier::type_invariant]
    closed spec fn well_formed(&self) -> bool {
        distinct_clients(self.clients@)
    }

    /// No client.
    pub fn new() -> (r: Self)
        ensures
            r@ == Map::<ClientId, SummaryTx>::empty(),
    {
        let r = SummaryManager { clients: Vec::new(), handed: Ghost(Seq::empty()) };
        assert(r@ =~= Map::<ClientId, SummaryTx>::empty());
        r
    }

    /// The position of client `id`, if it is served.
    fn position(&self, id: ClientId) -> (r: Option<usize>)
        ensures
            r matches Some(i) ==> i < self.clients@.len() && self.clients@[i as int].0 == id,
            r is None ==> !has_client(self.clients@, id),
    {
        let mut k: usize = 0;
        while k < self.clients.len()
            invariant
                k <= self.clients@.len(),
                forall|i: int| 0 <= i < k ==> #[trigger] self.clients@[i].0 != id,
            decreases self.clients@.len() - k,
        {
            if self.clients[k].0 == id {
                return Some(k);
            }
            k += 1;
        }
        None
    }

    /// Serves client `client_id` through `tx`, in place of the sender it had.
    pub fn add_summary_sender(&mut self, client_id: ClientId, tx: SummaryTx)
        ensures
            final(self)@ == old(self)@.insert(client_id, tx),
    {
        proof {
            use_type_invariant(&*self);
        }
        let ghost before = self.clients@;
        let ghost goal = clients_map(before).insert(client_id, tx);
        match self.position(client_id) {
            Some(i) => {
                let mut v: Vec<(ClientId, SummaryTx)> = Vec::new();
                std::mem::swap(&mut v, &mut self.clients);
                proof {
                    assert(v@ == before);
                }
                v.set(i, (client_id, tx));
                proof {
                    assert forall|a: int, b: int| 0 <= a < b < v@.len() implies #[trigger] v@[a].0
                        != #[trigger] v@[b].0 by {
                        assert(before[a].0 != before[b].0);
                    }
                    assert forall|id: ClientId| goal.dom().contains(id) <==> has_client(v@, id) by {
                        if has_client(before, id) {
                            let j = choose|j: int| 0 <= j < before.len() && #[trigger] before[j].0 == id;
                            assert(v@[j].0 == id);
                        }
                        if has_client(v@, id) {
                            let j = choose|j: int| 0 <= j < v@.len() && #[trigger] v@[j].0 == id;
                            if j != i {
                                assert(before[j].0 == id);
                            }
                        }
                    }
                    assert forall|j: int| 0 <= j < v@.len() implies #[trigger] goal[v@[j].0] == v@[j].1 by {
                        if j != i {
                            lemma_clients_map_at(before, j);
                            assert(before[j].0 != before[i as int].0 || j == i);
                        }
                    }
                    lemma_clients_map_ext(v@, goal);
                }
                self.clients = v;
            },
            None => {
                let mut v: Vec<(ClientId, SummaryTx)> = Vec::new();
                std::mem::swap(&mut v, &mut self.clients);
                proof {
                    assert(v@ == before);
                }
                v.push((client_id, tx));
                proof {
                    assert forall|a: int, b: int| 0 <= a < b < v@.len() implies #[trigger] v@[a].0
                        != #[trigger] v@[b].0 by {
                        if b == before.len() {
                            assert(before[a].0 != client_id);
                        } else {
                            assert(before[a].0 != before[b].0);
                        }
                    }
                    assert forall|id: ClientId| goal.dom().contains(id) <==> has_client(v@, id) by {
                        if has_client(before, id) {
                            let j = choose|j: int| 0 <= j < before.len() && #[trigger] before[j].0 == id;
                            assert(v@[j].0 == id);
                        }
                        if id == client_id {
                            assert(v@[before.len() as int].0 == id);
                        }
                        if has_client(v@, id) {
                            let j = choose|j: int| 0 <= j < v@.len() && #[trigger] v@[j].0 == id;
                            if j < before.len() {
                                assert(before[j].0 == id);
                            }
                        }
                    }
                    assert forall|j: int| 0 <= j < v@.len() implies #[trigger] goal[v@[j].0] == v@[j].1 by {
                        if j < before.len() {
                            lemma_clients_map_at(before, j);
                            assert(before[j].0 != client_id);
                        }
                    }
                    lemma_clients_map_ext(v@, goal);
                }
                self.clients = v;
            },
        }
    }

    /// Stops serving client `client_id`.
    pub fn remove_summary_sender(&mut self, client_id: &ClientId)
        ensures
            final(self)@ == old(self)@.remove(*client_id),
    {
        proof {
            use_type_invariant(&*self);
        }
        let ghost before = self.clients@;
        let ghost goal = clients_map(before).remove(*client_id);
        match self.position(*client_id) {
            Some(i) => {
                let mut v: Vec<(ClientId, SummaryTx)> = Vec::new();
                std::mem::swap(&mut v, &mut self.clients);
                proof {
                    assert(v@ == before);
                }
                let _ = v.remove(i);
                proof {
                    assert forall|a: int| 0 <= a < v@.len() implies #[trigger] v@[a] == (if a < i {
                        before[a]
                    } else {
                        before[a + 1]
                    }) by {}
                    assert forall|a: int, b: int| 0 <= a < b < v@.len() implies #[trigger] v@[a].0
                        != #[trigger] v@[b].0 by {
                        let a0 = if a < i { a } else { a + 1 };
                        let b0 = if b < i { b } else { b + 1 };
                        assert(v@[a] == before[a0]);
                        assert(v@[b] == before[b0]);
                        assert(before[a0].0 != before[b0].0);
                    }
                    assert forall|id: ClientId| goal.dom().contains(id) <==> has_client(v@, id) by {
                        if has_client(before, id) && id != *client_id {
                            let j = choose|j: int| 0 <= j < before.len() && #[trigger] before[j].0 == id;
                            assert(j != i);
                            if j < i {
                                assert(v@[j].0 == id);
                            } else {
                                assert(v@[j - 1].0 == id);
                            }
                        }
                        if has_client(v@, id) {
                            let j = choose|j: int| 0 <= j < v@.len() && #[trigger] v@[j].0 == id;
                            let j0 = if j < i { j } else { j + 1 };
                            assert(v@[j] == before[j0]);
                            assert(before[j0].0 == id);
                            assert(before[j0].0 != before[i as int].0);
                        }
                    }
                    assert forall|j: int| 0 <= j < v@.len() implies #[trigger] goal[v@[j].0] == v@[j].1 by {
                        let j0 = if j < i { j } else { j + 1 };
                        assert(v@[j] == before[j0]);
                        lemma_clients_map_at(before, j0);
                        assert(before[j0].0 != before[i as int].0);
                    }
                    lemma_clients_map_ext(v@, goal);
                }
                self.clients = v;
            },
            None => {
                proof {
                    assert(clients_map(before) =~= goal);
                }
            },
        }
    }

    /// Stops serving every client of `failed`.
    pub fn remove_clients(&mut self, failed: &Vec<ClientId>)
        ensures
            final(self)@ == old(self)@.remove_keys(failed@.to_set()),
    {
        let ghost start = self@;
        let mut k: usize = 0;
        while k < failed.len()
            invariant
                k <= failed@.len(),
                self@ == start.remove_keys(failed@.take(k as int).to_set()),
            decreases failed@.len() - k,
        {
            let ghost mid = self@;
            self.remove_summary_sender(&failed[k]);
            proof {
                assert(failed@.take(k + 1) =~= failed@.take(k as int).push(failed@[k as int]));
                assert(failed@.take(k + 1).to_set() =~= failed@.take(k as int).to_set().insert(
                    failed@[k as int],
                )) by {
                    failed@.take(k as int).lemma_push_to_set_commute(failed@[k as int]);
                }
                assert(self@ =~= start.remove_keys(failed@.take(k + 1).to_set()));
            }
            k += 1;
        }
        proof {
            assert(failed@.take(failed@.len() as int) =~= failed@);
        }
    }

    /// What the last broadcast handed to the sends: each client, in the order
    /// in which it was served, and the summary handed to its stream.
    pub closed spec fn handed(&self) -> Seq<(ClientId, Summary)> {
        self.handed@
    }

    /// The clients, in the order in which a broadcast serves them.
    pub closed spec fn client_ids(&self) -> Seq<ClientId> {
        self.clients@.map_values(|c: (ClientId, SummaryTx)| c.0)
    }

    /// The messages of a broadcast of `summary`: for each client, in the order
    /// of `client_ids()`, the client and a copy of `summary`.
    pub fn broadcast_plan(&self, summary: &Summary) -> (r: Vec<(ClientId, Summary)>)
        ensures
            r@.len() == self.client_ids().len(),
            forall|i: int|
                0 <= i < r@.len() ==> #[trigger] r@[i].0 == self.client_ids()[i] && same_summary(
                    r@[i].1,
                    *summary,
                ),
    {
        let mut r: Vec<(ClientId, Summary)> = Vec::new();
        let mut k: usize = 0;
        while k < self.clients.len()
            invariant
                k <= self.clients@.len(),
                r@.len() == k,
                forall|i: int|
                    0 <= i < k ==> #[trigger] r@[i].0 == self.client_ids()[i] && same_summary(
                        r@[i].1,
                        *summary,
                    ),
            decreases self.clients@.len() - k,
        {
            r.push((self.clients[k].0, copy_summary(summary)));
            k += 1;
        }
        r
    }

    /// Hands each client's stream its message of `broadcast_plan(summary)`, in
    /// the order of `client_ids()`, and returns for each whether its stream
    /// accepted it; the clients whose stream refused it are then no longer
    /// served.
    pub fn broadcast(&mut self, summary: &Summary) -> (accepted: Vec<bool>)
        ensures
            accepted@.len() == old(self).client_ids().len(),
            final(self)@ == old(self)@.remove_keys(
                refused(old(self).client_ids(), accepted@).to_set(),
            ),
            final(self).handed().len() == old(self).client_ids().len(),
            forall|i: int|
                0 <= i < final(self).handed().len() ==> (#[trigger] final(self).handed()[i]).0 == old(
                    self,
                ).client_ids()[i] && same_summary(final(self).handed()[i].1, *summary),
    {
        let ghost ids = self.client_ids();
        let ghost mut log: Seq<(ClientId, Summary)> = Seq::empty();
        let mut plan = self.broadcast_plan(summary);
        let ghost whole = plan@;
        assert forall|i: int| 0 <= i < whole.len() implies same_summary(#[trigger] whole[i].1, *summary) by {
            assert(whole[i].0 == ids[i]);
        }
        let mut accepted: Vec<bool> = Vec::new();
        let mut ids_v: Vec<ClientId> = Vec::new();
        let mut k: usize = 0;
        while k < self.clients.len()
            invariant
                k <= self.clients@.len(),
                ids == self.client_ids(),
                whole.len() == ids.len(),
                forall|i: int| 0 <= i < whole.len() ==> #[trigger] whole[i].0 == ids[i],
                forall|i: int| 0 <= i < whole.len() ==> same_summary(#[trigger] whole[i].1, *summary),
                log.len() == k,
                forall|i: int|
                    0 <= i < k ==> #[trigger] log[i].0 == ids[i] && same_summary(log[i].1, *summary),
                plan@ == whole.skip(k as int),
                accepted@.len() == k,
                ids_v@ == ids.take(k as int),
            decreases self.clients@.len() - k,
        {
            let (id, message) = plan.remove(0);
            proof {
                assert(whole.skip(k + 1) =~= whole.skip(k as int).remove(0));
            }
            let (ok, sent) = send_summary(&self.clients[k].1, message);
            proof {
                assert(sent@ == whole[k as int].1);
                log = log.push((id, sent@));
            }
            accepted.push(ok);
            ids_v.push(id);
            proof {
                assert(id == whole[k as int].0);
                assert(whole[k as int].0 == ids[k as int]);
                assert(ids[k as int] == self.clients@[k as int].0);
                assert(ids.take(k + 1) =~= ids.take(k as int).push(self.clients@[k as int].0));
            }
            k += 1;
        }
        proof {
            assert(ids.take(k as int) =~= ids);
        }
        let failed = refused_clients(&ids_v, &accepted);
        self.remove_clients(&failed);
        proof {
            use_type_invariant(&*self);
        }
        self.handed = Ghost(log);
        assert(self.handed() == log);
        assert(ids == old(self).client_ids());
        assert(log.len() == ids.len());
        assert forall|i: int| 0 <= i < self.handed().len() implies (#[trigger] self.handed()[i]).0 == ids[i]
            && same_summary(self.handed()[i].1, *summary) by {
            assert(log[i].0 == ids[i]);
        }
        accepted
    }
}

/// Whether summary `a` is a copy of summary `b`: the same spread and the same
/// levels.
pub open spec fn same_summary(a: Summary, b: Summary) -> bool {
    &&& a.spread@ == b.spread@
    &&& crate::data_types::levels_view(a.bids@) == crate::data_types::levels_view(b.bids@)
    &&& crate::data_types::levels_view(a.asks@) == crate::data_types::levels_view(b.asks@)
}

/// The clients of `ids` whose flag in `accepted` is false, in order.
pub open spec fn refused(ids: Seq<ClientId>, accepted: Seq<bool>) -> Seq<ClientId>
    decreases ids.len(),
{
    if ids.len() == 0 || accepted.len() == 0 {
        Seq::empty()
    } else {
        let r = refused(ids.drop_last(), accepted.drop_last());
        if accepted.last() {
            r
        } else {
            r.push(ids.last())
        }
    }
}

/// The clients that refused a summary, given each client's send outcome.
pub fn refused_clients(ids: &Vec<ClientId>, accepted: &Vec<bool>) -> (r: Vec<ClientId>)
    requires
        ids@.len() == accepted@.len(),
    ensures
        r@ == refused(ids@, accepted@),
{
    let mut r: Vec<ClientId> = Vec::new();
    let mut k: usize = 0;
    while k < ids.len()
        invariant
            k <= ids@.len() == accepted@.len(),
            r@ == refused(ids@.take(k as int), accepted@.take(k as int)),
        decreases ids@.len() - k,
    {
        proof {
            assert(ids@.take(k + 1).drop_last() =~= ids@.take(k as int));
            assert(accepted@.take(k + 1).drop_last() =~= accepted@.take(k as int));
        }
        if !accepted[k] {
            r.push(ids[k]);
        }
        k += 1;
    }
    proof {
        assert(ids@.take(k as int) =~= ids@);
        assert(accepted@.take(k as int) =~= accepted@);
    }
    r
}

impl Default for SummaryManager {
    /// No client.
    fn default() -> (r: Self)
        ensures
            r@ == Map::<ClientId, SummaryTx>::empty(),
    {
        SummaryManager::new()
    }
}

/// A copy of a summary, level by level.
pub fn copy_summary(s: &Summary) -> (r: Summary)
    ensures
        r.spread@ == s.spread@,
        crate::data_types::levels_view(r.bids@) == crate::data_types::levels_view(s.bids@),
        crate::data_types::levels_view(r.asks@) == crate::data_types::levels_view(s.asks@),
{
    Summary { spread: s.spread.clone(), bids: copy_levels(&s.bids), asks: copy_levels(&s.asks) }
}

fn copy_levels(v: &Vec<crate::data_types::ExchangePriceLevel>) -> (r: Vec<
    crate::data_types::ExchangePriceLevel,
>)
    ensures
        crate::data_types::levels_view(r@) == crate::data_types::levels_view(v@),
{
    let mut r: Vec<crate::data_types::ExchangePriceLevel> = Vec::new();
    let mut k: usize = 0;
    while k < v.len()
        invariant
            k <= v@.len(),
            crate::data_types::levels_view(r@) =~= crate::data_types::levels_view(v@.take(k as int)),
        decreases v@.len() - k,
    {
        let l = crate::data_types::ExchangePriceLevel {
            exchange: v[k].exchange.clone(),
            price: v[k].price.clone(),
            amount: v[k].amount.clone(),
        };
        let ghost r0 = r@;
        r.push(l);
        proof {
            assert(l@ == v@[k as int]@);
            assert(v@.take(k + 1) =~= v@.take(k as int).push(v@[k as int]));
            assert(crate::data_types::levels_view(r@) =~= crate::data_types::levels_view(r0).push(l@));
            assert(crate::data_types::levels_view(v@.take(k + 1)) =~= crate::data_types::levels_view(
                v@.take(k as int),
            ).push(v@[k as int]@));
        }
        k += 1;
    }
    proof {
        assert(v@.take(v@.len() as int) =~= v@);
    }
    r
}

/// Adding a client and then removing it leaves the clients as removing it alone
/// would.
pub proof fn law_add_then_remove(m: Map<ClientId, SummaryTx>, id: ClientId, tx: SummaryTx)
    ensures
        m.insert(id, tx).remove(id) == m.remove(id),
{
    assert(m.insert(id, tx).remove(id) =~= m.remove(id));
}

} // verus!
