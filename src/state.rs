//! The registry of mocks, rules, recordings and request history; the
//! dispatch decision for each request; and the laws they obey.

use vstd::prelude::*;

use crate::document::{
    document_text, entries_view, entry_view, export_document, import_document,
    lemma_document_round_trip, parse_document, text_bodies, EntryView,
};
use crate::error::ServerAdapterError;
use crate::matcher::{
    all_accept, all_match, clip, distance_sum, score, seq_sum, unmatched_count, Matcher, Score,
};
use crate::recording::{
    capture_request, captures, copy_response, definition_for_entry, entry_accepts, entry_playable,
    lemma_captured_request_accepted, lemma_playback_matchers_accept, lemma_playback_valid,
    playback_definition,
};
use crate::request::{pairs_view, HttpRequest, RequestView};
use crate::rules::{
    is_valid_definition, keys_clean, matcher_keys_clean, names_clean, valid_definition, ActiveForwardingRule,
    ActiveMock, ActiveProxyRule, ActiveRecording, ForwardingRuleConfig, MockDefinition,
    ProxyRuleConfig, RecordedEntry, RecordedResponse,
    RecordingRuleConfig,
};

verus! {

/// An item that carries the identifier the registry gave it.
pub trait Identified {
    spec fn spec_id(&self) -> usize;

    fn id(&self) -> (r: usize)
        ensures
            r == self.spec_id(),
    ;
}

impl Identified for ActiveMock {
    open spec fn spec_id(&self) -> usize {
        self.id
    }

    fn id(&self) -> (r: usize) {
        self.id
    }
}

impl Identified for ActiveForwardingRule {
    open spec fn spec_id(&self) -> usize {
        self.id
    }

    fn id(&self) -> (r: usize) {
        self.id
    }
}

impl Identified for ActiveProxyRule {
    open spec fn spec_id(&self) -> usize {
        self.id
    }

    fn id(&self) -> (r: usize) {
        self.id
    }
}

impl Identified for ActiveRecording {
    open spec fn spec_id(&self) -> usize {
        self.id
    }

    fn id(&self) -> (r: usize) {
        self.id
    }
}

/// Identifiers rise strictly along the sequence.
pub open spec fn ids_increasing<T: Identified>(s: Seq<T>) -> bool {
    forall|i: int, j: int| 0 <= i < j < s.len() ==> s[i].spec_id() < s[j].spec_id()
}

/// Position of the item with that identifier.
pub open spec fn has_id_at<T: Identified>(s: Seq<T>, id: usize, i: int) -> bool {
    0 <= i < s.len() && s[i].spec_id() == id
}

/// The items of one category, in order of creation, and the next identifier.
pub struct Registry<T> {
    items: Vec<T>,
    next_id: usize,
}

impl<T: Identified> Registry<T> {
    pub closed spec fn items(&self) -> Seq<T> {
        self.items@
    }

    pub closed spec fn next(&self) -> usize {
        self.next_id
    }

    pub closed spec fn wf(&self) -> bool {
        &&& ids_increasing(self.items@)
        &&& forall|i: int| 0 <= i < self.items@.len() ==> #[trigger] self.items@[i].spec_id() < self.next_id
    }

    pub fn new() -> (r: Self)
        ensures
            r.wf(),
            r.items() == Seq::<T>::empty(),
            r.next() == 0,
    {
        Registry { items: Vec::new(), next_id: 0 }
    }

    /// Appends an item that carries the next identifier.
    fn append(&mut self, item: T)
        requires
            old(self).wf(),
            item.spec_id() == old(self).next(),
            old(self).next() < usize::MAX,
        ensures
            final(self).wf(),
            final(self).items() == old(self).items().push(item),
            final(self).next() == old(self).next() + 1,
    {
        self.items.push(item);
        self.next_id = self.next_id + 1;
    }

    /// Position of the item with that identifier, if any.
    pub fn position(&self, id: usize) -> (r: Option<usize>)
        ensures
            match r {
                Some(i) => has_id_at(self.items(), id, i as int),
                None => forall|i: int| !has_id_at(self.items(), id, i),
            },
    {
        let mut i: usize = 0;
        while i < self.items.len()
            invariant
                0 <= i <= self.items@.len(),
                forall|j: int| 0 <= j < i ==> !has_id_at(self.items@, id, j),
            decreases self.items@.len() - i,
        {
            if self.items[i].id() == id {
                return Some(i);
            }
            i = i + 1;
        }
        None
    }

    /// Removes the item with that identifier; the others keep their
    /// identifiers and their order.
    fn remove_id(&mut self, id: usize) -> (r: bool)
        requires
            old(self).wf(),
        ensures
            final(self).wf(),
            final(self).next() == old(self).next(),
            r == exists|i: int| has_id_at(old(self).items(), id, i),
            r ==> exists|i: int|
                has_id_at(old(self).items(), id, i) && final(self).items() == old(self).items().remove(i),
            !r ==> final(self).items() == old(self).items(),
    {
        match self.position(id) {
            Some(i) => {
                let ghost before = self.items@;
                self.items.remove(i);
                assert(has_id_at(before, id, i as int));
                assert forall|a: int, b: int| 0 <= a < b < self.items@.len() implies self.items@[a].spec_id()
                    < self.items@[b].spec_id() by {
                    let a0 = if a < i { a } else { a + 1 };
                    let b0 = if b < i { b } else { b + 1 };
                    assert(self.items@[a] == before[a0]);
                    assert(self.items@[b] == before[b0]);
                }
                assert forall|k: int| 0 <= k < self.items@.len() implies #[trigger] self.items@[k].spec_id() < self.next_id by {
                    let k0 = if k < i { k } else { k + 1 };
                    assert(self.items@[k] == before[k0]);
                }
                true
            },
            None => false,
        }
    }

    /// Removes every item; identifiers are not reused.
    fn clear(&mut self)
        requires
            old(self).wf(),
        ensures
            final(self).wf(),
            final(self).items() == Seq::<T>::empty(),
            final(self).next() == old(self).next(),
    {
        self.items = Vec::new();
    }

    /// All items, in order of creation.
    pub fn all(&self) -> (r: &Vec<T>)
        ensures
            r@ == self.items(),
    {
        &self.items
    }
}

/// The decision taken for a request.
#[derive(PartialEq, Eq, Structural, Clone, Copy, Debug)]
pub enum Dispatch {
    /// Forward to the upstream of the forwarding rule with this identifier.
    Forward(usize),
    /// Proxy, as allowed by the proxy rule with this identifier.
    Proxy(usize),
    /// Serve the response of the mock with this identifier.
    Respond(usize),
    NotFound,
}

/// The first of the first `n` forwarding rules whose filter accepts the request.
pub open spec fn first_forward(rs: Seq<ActiveForwardingRule>, r: RequestView, n: nat) -> Option<int>
    decreases n,
{
    if n == 0 {
        None
    } else {
        match first_forward(rs, r, (n - 1) as nat) {
            Some(i) => Some(i),
            None => if all_accept(rs[n - 1].config.request_requirements@, r) {
                Some(n - 1)
            } else {
                None
            },
        }
    }
}

/// The first of the first `n` proxy rules whose filter accepts the request.
pub open spec fn first_proxy(rs: Seq<ActiveProxyRule>, r: RequestView, n: nat) -> Option<int>
    decreases n,
{
    if n == 0 {
        None
    } else {
        match first_proxy(rs, r, (n - 1) as nat) {
            Some(i) => Some(i),
            None => if all_accept(rs[n - 1].config.request_requirements@, r) {
                Some(n - 1)
            } else {
                None
            },
        }
    }
}

/// The mock still may answer: it has no limit or has not reached it.
pub open spec fn mock_active(m: ActiveMock) -> bool {
    match m.definition.limit {
        None => true,
        Some(n) => m.hits < n,
    }
}

/// The mock is active and all its matchers accept the request.
pub open spec fn mock_selectable(m: ActiveMock, r: RequestView) -> bool {
    mock_active(m) && all_accept(m.definition.matchers@, r)
}

/// The last of the first `n` mocks that may answer the request.
pub open spec fn last_selectable(ms: Seq<ActiveMock>, r: RequestView, n: nat) -> Option<int>
    decreases n,
{
    if n == 0 {
        None
    } else if mock_selectable(ms[n - 1], r) {
        Some(n - 1)
    } else {
        last_selectable(ms, r, (n - 1) as nat)
    }
}

/// A hit counter after one more hit (it stays at its maximum).
pub open spec fn bumped(h: u64) -> u64 {
    if h < u64::MAX {
        (h + 1) as u64
    } else {
        h
    }
}

/// The history after one more arrival: the oldest entries leave so that at
/// most `limit` remain.
pub open spec fn bounded_push(h: Seq<RequestView>, x: RequestView, limit: nat) -> Seq<RequestView> {
    let p = h.push(x);
    if p.len() > limit {
        p.subrange(p.len() - limit, p.len() as int)
    } else {
        p
    }
}

/// The history left by a run of arrivals on an empty history.
pub open spec fn history_after(arrivals: Seq<RequestView>, limit: nat) -> Seq<RequestView>
    decreases arrivals.len(),
{
    if arrivals.len() == 0 {
        Seq::empty()
    } else {
        bounded_push(history_after(arrivals.drop_last(), limit), arrivals.last(), limit)
    }
}

pub open spec fn requests_view(v: Seq<HttpRequest>) -> Seq<RequestView> {
    Seq::new(v.len(), |i: int| v[i]@)
}

/// Everything the server holds: mocks, forwarding rules, proxy rules,
/// recordings and a bounded history of requests.
pub struct StateManager {
    mocks: Registry<ActiveMock>,
    forwarding_rules: Registry<ActiveForwardingRule>,
    proxy_rules: Registry<ActiveProxyRule>,
    recordings: Registry<ActiveRecording>,
    history: Vec<HttpRequest>,
    history_limit: usize,
    next_sequence: u64,
}

impl StateManager {
    pub closed spec fn mocks(&self) -> Seq<ActiveMock> {
        self.mocks.items()
    }

    pub closed spec fn forwarding_rules(&self) -> Seq<ActiveForwardingRule> {
        self.forwarding_rules.items()
    }

    pub closed spec fn proxy_rules(&self) -> Seq<ActiveProxyRule> {
        self.proxy_rules.items()
    }

    pub closed spec fn recordings(&self) -> Seq<ActiveRecording> {
        self.recordings.items()
    }

    pub closed spec fn history(&self) -> Seq<RequestView> {
        requests_view(self.history@)
    }

    pub closed spec fn history_limit(&self) -> nat {
        self.history_limit as nat
    }

    pub closed spec fn next_mock_id(&self) -> usize {
        self.mocks.next()
    }

    pub closed spec fn next_forwarding_id(&self) -> usize {
        self.forwarding_rules.next()
    }

    pub closed spec fn next_proxy_id(&self) -> usize {
        self.proxy_rules.next()
    }

    pub closed spec fn next_recording_id(&self) -> usize {
        self.recordings.next()
    }

    pub closed spec fn next_sequence(&self) -> u64 {
        self.next_sequence
    }

    /// Identifiers rise with creation in every category, every mock has a
    /// valid definition and has not gone past its limit, and the history
    /// holds at most its limit.
    pub closed spec fn wf(&self) -> bool {
        &&& self.mocks.wf()
        &&& self.forwarding_rules.wf()
        &&& self.proxy_rules.wf()
        &&& self.recordings.wf()
        &&& self.history@.len() <= self.history_limit
        &&& forall|i: int|
            0 <= i < self.mocks.items().len() ==> #[trigger] mock_well_formed(
                self.mocks.items()[i],
            )
    }

    /// The decision for a request: the first forwarding rule that accepts
    /// it, else the first proxy rule, else the most recently created mock
    /// that may answer, else not found.
    pub open spec fn dispatch_of(&self, r: RequestView) -> Dispatch {
        let fs = self.forwarding_rules();
        let ps = self.proxy_rules();
        let ms = self.mocks();
        match first_forward(fs, r, fs.len()) {
            Some(i) => Dispatch::Forward(fs[i].id),
            None => match first_proxy(ps, r, ps.len()) {
                Some(i) => Dispatch::Proxy(ps[i].id),
                None => match last_selectable(ms, r, ms.len()) {
                    Some(i) => Dispatch::Respond(ms[i].id),
                    None => Dispatch::NotFound,
                },
            },
        }
    }

    /// Position of the mock that answers the request, if one does.
    pub open spec fn responder_of(&self, r: RequestView) -> Option<int> {
        let fs = self.forwarding_rules();
        let ps = self.proxy_rules();
        if first_forward(fs, r, fs.len()) is None && first_proxy(ps, r, ps.len()) is None {
            last_selectable(self.mocks(), r, self.mocks().len())
        } else {
            None
        }
    }

    /// A server with empty registries and a history of at most `history_limit` requests.
    pub fn new(history_limit: usize) -> (r: Self)
        ensures
            r.wf(),
            r.mocks().len() == 0,
            r.forwarding_rules().len() == 0,
            r.proxy_rules().len() == 0,
            r.recordings().len() == 0,
            r.history().len() == 0,
            r.history_limit() == history_limit,
            r.next_mock_id() == 0,
            r.next_forwarding_id() == 0,
            r.next_proxy_id() == 0,
            r.next_recording_id() == 0,
            r.next_sequence() == 0,
    {
        StateManager {
            mocks: Registry::new(),
            forwarding_rules: Registry::new(),
            proxy_rules: Registry::new(),
            recordings: Registry::new(),
            history: Vec::new(),
            history_limit,
            next_sequence: 0,
        }
    }
}

/// The mock has not answered more often than its limit allows.
pub open spec fn mock_within_limit(m: ActiveMock) -> bool {
    match m.definition.limit {
        None => true,
        Some(n) => m.hits <= n,
    }
}

/// The mock's definition is valid and its hits are within its limit.
pub open spec fn mock_well_formed(m: ActiveMock) -> bool {
    valid_definition(m.definition) && mock_within_limit(m)
}

/// Two states hold the same forwarding rules, proxy rules and recordings.
pub open spec fn same_rules(a: StateManager, b: StateManager) -> bool {
    &&& a.forwarding_rules() == b.forwarding_rules()
    &&& a.next_forwarding_id() == b.next_forwarding_id()
    &&& a.proxy_rules() == b.proxy_rules()
    &&& a.next_proxy_id() == b.next_proxy_id()
    &&& a.recordings() == b.recordings()
    &&& a.next_recording_id() == b.next_recording_id()
}

/// Two states hold the same mocks.
pub open spec fn same_mocks(a: StateManager, b: StateManager) -> bool {
    a.mocks() == b.mocks() && a.next_mock_id() == b.next_mock_id()
}

/// Two states hold the same history under the same limit.
pub open spec fn same_history(a: StateManager, b: StateManager) -> bool {
    &&& a.history() == b.history()
    &&& a.history_limit() == b.history_limit()
    &&& a.next_sequence() == b.next_sequence()
}

impl StateManager {
    /// Adds a mock under the next identifier, or refuses an invalid definition.
    pub fn create_mock(&mut self, definition: MockDefinition) -> (r: Result<usize, ServerAdapterError>)
        requires
            old(self).wf(),
            old(self).next_mock_id() < usize::MAX,
        ensures
            final(self).wf(),
            same_rules(*final(self), *old(self)),
            same_history(*final(self), *old(self)),
            match r {
                Ok(id) => {
                    &&& valid_definition(definition)
                    &&& id == old(self).next_mock_id()
                    &&& final(self).mocks() == old(self).mocks().push(
                        (ActiveMock { id, definition, hits: 0 }),
                    )
                    &&& final(self).next_mock_id() == id + 1
                },
                Err(e) => {
                    &&& !valid_definition(definition)
                    &&& e is InvalidMockDefinitionError
                    &&& same_mocks(*final(self), *old(self))
                },
            },
    {
        if !is_valid_definition(&definition) {
            return Err(
                ServerAdapterError::InvalidMockDefinitionError(
                    String::from_str("invalid mock definition"),
                ),
            );
        }
        let id = self.mocks.next_id;
        self.mocks.append(ActiveMock { id, definition, hits: 0 });
        proof {
            assert forall|i: int| 0 <= i < self.mocks.items().len() implies #[trigger] mock_well_formed(
                self.mocks.items()[i],
            ) by {
                if i < self.mocks.items().len() - 1 {
                    assert(self.mocks.items()[i] == old(self).mocks.items()[i]);
                }
            }
        }
        Ok(id)
    }

    /// The mock with that identifier.
    pub fn fetch_mock(&self, id: usize) -> (r: Result<&ActiveMock, ServerAdapterError>)
        ensures
            match r {
                Ok(m) => exists|i: int| has_id_at(self.mocks(), id, i) && *m == self.mocks()[i],
                Err(e) => (e is MockNotFound && e->MockNotFound_0 == id) && forall|i: int|
                    !has_id_at(self.mocks(), id, i),
            },
    {
        match self.mocks.position(id) {
            Some(i) => {
                assert(has_id_at(self.mocks(), id, i as int));
                Ok(&self.mocks.items[i])
            },
            None => Err(ServerAdapterError::MockNotFound(id)),
        }
    }

    /// Deletes the mock with that identifier; the others keep their
    /// identifiers and their order.
    pub fn delete_mock(&mut self, id: usize) -> (r: Result<(), ServerAdapterError>)
        requires
            old(self).wf(),
        ensures
            final(self).wf(),
            same_rules(*final(self), *old(self)),
            same_history(*final(self), *old(self)),
            final(self).next_mock_id() == old(self).next_mock_id(),
            (r is Ok) == (exists|i: int| has_id_at(old(self).mocks(), id, i)),
            r is Ok ==> exists|i: int|
                has_id_at(old(self).mocks(), id, i) && final(self).mocks()
                    == old(self).mocks().remove(i),
            r is Err ==> final(self).mocks() == old(self).mocks() && (r->Err_0 is MockNotFound
                && r->Err_0->MockNotFound_0 == id),
    {
        let ghost before = self.mocks.items();
        let found = self.mocks.remove_id(id);
        assert(old(self).mocks() == before);
        assert(self.mocks() == self.mocks.items());
        proof {
            assert forall|k: int| 0 <= k < self.mocks.items().len() implies #[trigger] mock_well_formed(
                self.mocks.items()[k],
            ) by {
                if found {
                    let i = choose|i: int| has_id_at(before, id, i) && self.mocks.items() == before.remove(i);
                    let k0 = if k < i { k } else { k + 1 };
                    assert(self.mocks.items()[k] == before[k0]);
                }
            }
        }
        if found {
            Ok(())
        } else {
            Err(ServerAdapterError::MockNotFound(id))
        }
    }

    /// Deletes every mock.
    pub fn delete_all_mocks(&mut self)
        requires
            old(self).wf(),
        ensures
            final(self).wf(),
            same_rules(*final(self), *old(self)),
            same_history(*final(self), *old(self)),
            final(self).mocks().len() == 0,
            final(self).next_mock_id() == old(self).next_mock_id(),
    {
        self.mocks.clear();
    }

    /// All mocks, in order of creation.
    pub fn all_mocks(&self) -> (r: &Vec<ActiveMock>)
        ensures
            r@ == self.mocks(),
    {
        self.mocks.all()
    }

    /// Adds a forwarding rule under the next identifier, or refuses one whose filter
    /// holds a key with a line break.
    pub fn create_forwarding_rule(&mut self, config: ForwardingRuleConfig) -> (r: Result<usize, ServerAdapterError>)
        requires
            old(self).wf(),
            old(self).next_forwarding_id() < usize::MAX,
        ensures
            final(self).wf(),
            same_mocks(*final(self), *old(self)),
            same_history(*final(self), *old(self)),
            final(self).proxy_rules() == old(self).proxy_rules(),
            final(self).next_proxy_id() == old(self).next_proxy_id(),
            final(self).recordings() == old(self).recordings(),
            final(self).next_recording_id() == old(self).next_recording_id(),
            match r {
                Ok(id) => {
                    &&& keys_clean(config.request_requirements@)
                    &&& id == old(self).next_forwarding_id()
                    &&& final(self).forwarding_rules() == old(self).forwarding_rules().push(
                        (ActiveForwardingRule { id, config }),
                    )
                    &&& final(self).next_forwarding_id() == id + 1
                },
                Err(e) => {
                    &&& !keys_clean(config.request_requirements@)
                    &&& e is InvalidMockDefinitionError
                    &&& final(self).forwarding_rules() == old(self).forwarding_rules()
                    &&& final(self).next_forwarding_id() == old(self).next_forwarding_id()
                },
            },
    {
        if !matcher_keys_clean(&config.request_requirements) {
            return Err(
                ServerAdapterError::InvalidMockDefinitionError(
                    String::from_str("invalid request requirements"),
                ),
            );
        }
        let id = self.forwarding_rules.next_id;
        self.forwarding_rules.append(ActiveForwardingRule { id, config });
        Ok(id)
    }

    /// Deletes the forwarding rule with that identifier; the others keep their
    /// identifiers and their order.
    pub fn delete_forwarding_rule(&mut self, id: usize) -> (r: Result<(), ServerAdapterError>)
        requires
            old(self).wf(),
        ensures
            final(self).wf(),
            same_mocks(*final(self), *old(self)),
            same_history(*final(self), *old(self)),
            final(self).proxy_rules() == old(self).proxy_rules(),
            final(self).next_proxy_id() == old(self).next_proxy_id(),
            final(self).recordings() == old(self).recordings(),
            final(self).next_recording_id() == old(self).next_recording_id(),
            final(self).next_forwarding_id() == old(self).next_forwarding_id(),
            (r is Ok) == (exists|i: int| has_id_at(old(self).forwarding_rules(), id, i)),
            r is Ok ==> exists|i: int|
                has_id_at(old(self).forwarding_rules(), id, i) && final(self).forwarding_rules()
                    == old(self).forwarding_rules().remove(i),
            r is Err ==> final(self).forwarding_rules() == old(self).forwarding_rules() && (r->Err_0 is MockNotFound
                && r->Err_0->MockNotFound_0 == id),
    {
        let found = self.forwarding_rules.remove_id(id);
        assert(old(self).forwarding_rules() == old(self).forwarding_rules.items());
        assert(self.forwarding_rules() == self.forwarding_rules.items());
        if found {
            Ok(())
        } else {
            Err(ServerAdapterError::MockNotFound(id))
        }
    }

    /// Deletes every forwarding rule.
    pub fn delete_all_forwarding_rules(&mut self)
        requires
            old(self).wf(),
        ensures
            final(self).wf(),
            same_mocks(*final(self), *old(self)),
            same_history(*final(self), *old(self)),
            final(self).proxy_rules() == old(self).proxy_rules(),
            final(self).next_proxy_id() == old(self).next_proxy_id(),
            final(self).recordings() == old(self).recordings(),
            final(self).next_recording_id() == old(self).next_recording_id(),
            final(self).forwarding_rules().len() == 0,
            final(self).next_forwarding_id() == old(self).next_forwarding_id(),
    {
        self.forwarding_rules.clear();
    }

    /// All forwarding rules, in order of creation.
    pub fn all_forwarding_rules(&self) -> (r: &Vec<ActiveForwardingRule>)
        ensures
            r@ == self.forwarding_rules(),
    {
        self.forwarding_rules.all()
    }

    /// Adds a proxy rule under the next identifier, or refuses one whose filter
    /// holds a key with a line break.
    pub fn create_proxy_rule(&mut self, config: ProxyRuleConfig) -> (r: Result<usize, ServerAdapterError>)
        requires
            old(self).wf(),
            old(self).next_proxy_id() < usize::MAX,
        ensures
            final(self).wf(),
            same_mocks(*final(self), *old(self)),
            same_history(*final(self), *old(self)),
            final(self).forwarding_rules() == old(self).forwarding_rules(),
            final(self).next_forwarding_id() == old(self).next_forwarding_id(),
            final(self).recordings() == old(self).recordings(),
            final(self).next_recording_id() == old(self).next_recording_id(),
            match r {
                Ok(id) => {
                    &&& keys_clean(config.request_requirements@)
                    &&& id == old(self).next_proxy_id()
                    &&& final(self).proxy_rules() == old(self).proxy_rules().push(
                        (ActiveProxyRule { id, config }),
                    )
                    &&& final(self).next_proxy_id() == id + 1
                },
                Err(e) => {
                    &&& !keys_clean(config.request_requirements@)
                    &&& e is InvalidMockDefinitionError
                    &&& final(self).proxy_rules() == old(self).proxy_rules()
                    &&& final(self).next_proxy_id() == old(self).next_proxy_id()
                },
            },
    {
        if !matcher_keys_clean(&config.request_requirements) {
            return Err(
                ServerAdapterError::InvalidMockDefinitionError(
                    String::from_str("invalid request requirements"),
                ),
            );
        }
        let id = self.proxy_rules.next_id;
        self.proxy_rules.append(ActiveProxyRule { id, config });
        Ok(id)
    }

    /// Deletes the proxy rule with that identifier; the others keep their
    /// identifiers and their order.
    pub fn delete_proxy_rule(&mut self, id: usize) -> (r: Result<(), ServerAdapterError>)
        requires
            old(self).wf(),
        ensures
            final(self).wf(),
            same_mocks(*final(self), *old(self)),
            same_history(*final(self), *old(self)),
            final(self).forwarding_rules() == old(self).forwarding_rules(),
            final(self).next_forwarding_id() == old(self).next_forwarding_id(),
            final(self).recordings() == old(self).recordings(),
            final(self).next_recording_id() == old(self).next_recording_id(),
            final(self).next_proxy_id() == old(self).next_proxy_id(),
            (r is Ok) == (exists|i: int| has_id_at(old(self).proxy_rules(), id, i)),
            r is Ok ==> exists|i: int|
                has_id_at(old(self).proxy_rules(), id, i) && final(self).proxy_rules()
                    == old(self).proxy_rules().remove(i),
            r is Err ==> final(self).proxy_rules() == old(self).proxy_rules() && (r->Err_0 is MockNotFound
                && r->Err_0->MockNotFound_0 == id),
    {
        let found = self.proxy_rules.remove_id(id);
        assert(old(self).proxy_rules() == old(self).proxy_rules.items());
        assert(self.proxy_rules() == self.proxy_rules.items());
        if found {
            Ok(())
        } else {
            Err(ServerAdapterError::MockNotFound(id))
        }
    }

    /// Deletes every proxy rule.
    pub fn delete_all_proxy_rules(&mut self)
        requires
            old(self).wf(),
        ensures
            final(self).wf(),
            same_mocks(*final(self), *old(self)),
            same_history(*final(self), *old(self)),
            final(self).forwarding_rules() == old(self).forwarding_rules(),
            final(self).next_forwarding_id() == old(self).next_forwarding_id(),
            final(self).recordings() == old(self).recordings(),
            final(self).next_recording_id() == old(self).next_recording_id(),
            final(self).proxy_rules().len() == 0,
            final(self).next_proxy_id() == old(self).next_proxy_id(),
    {
        self.proxy_rules.clear();
    }

    /// All proxy rules, in order of creation.
    pub fn all_proxy_rules(&self) -> (r: &Vec<ActiveProxyRule>)
        ensures
            r@ == self.proxy_rules(),
    {
        self.proxy_rules.all()
    }

    /// Adds a recording under the next identifier, or refuses one whose filter
    /// holds a key with a line break.
    pub fn create_recording(&mut self, config: RecordingRuleConfig) -> (r: Result<usize, ServerAdapterError>)
        requires
            old(self).wf(),
            old(self).next_recording_id() < usize::MAX,
        ensures
            final(self).wf(),
            same_mocks(*final(self), *old(self)),
            same_history(*final(self), *old(self)),
            final(self).forwarding_rules() == old(self).forwarding_rules(),
            final(self).next_forwarding_id() == old(self).next_forwarding_id(),
            final(self).proxy_rules() == old(self).proxy_rules(),
            final(self).next_proxy_id() == old(self).next_proxy_id(),
            match r {
                Ok(id) => {
                    &&& keys_clean(config.request_requirements@)
                    &&& id == old(self).next_recording_id()
                    &&& final(self).recordings().len() == old(self).recordings().len() + 1
                    &&& final(self).recordings().drop_last() == old(self).recordings()
                    &&& final(self).recordings().last().id == id
                    &&& final(self).recordings().last().config == config
                    &&& final(self).recordings().last().entries@.len() == 0
                    &&& final(self).next_recording_id() == id + 1
                },
                Err(e) => {
                    &&& !keys_clean(config.request_requirements@)
                    &&& e is InvalidMockDefinitionError
                    &&& final(self).recordings() == old(self).recordings()
                    &&& final(self).next_recording_id() == old(self).next_recording_id()
                },
            },
    {
        if !matcher_keys_clean(&config.request_requirements) {
            return Err(
                ServerAdapterError::InvalidMockDefinitionError(
                    String::from_str("invalid request requirements"),
                ),
            );
        }
        let id = self.recordings.next_id;
        self.recordings.append(ActiveRecording { id, config, entries: Vec::new() });
        Ok(id)
    }

    /// Deletes the recording with that identifier; the others keep their
    /// identifiers and their order.
    pub fn delete_recording(&mut self, id: usize) -> (r: Result<(), ServerAdapterError>)
        requires
            old(self).wf(),
        ensures
            final(self).wf(),
            same_mocks(*final(self), *old(self)),
            same_history(*final(self), *old(self)),
            final(self).forwarding_rules() == old(self).forwarding_rules(),
            final(self).next_forwarding_id() == old(self).next_forwarding_id(),
            final(self).proxy_rules() == old(self).proxy_rules(),
            final(self).next_proxy_id() == old(self).next_proxy_id(),
            final(self).next_recording_id() == old(self).next_recording_id(),
            (r is Ok) == (exists|i: int| has_id_at(old(self).recordings(), id, i)),
            r is Ok ==> exists|i: int|
                has_id_at(old(self).recordings(), id, i) && final(self).recordings()
                    == old(self).recordings().remove(i),
            r is Err ==> final(self).recordings() == old(self).recordings() && (r->Err_0 is MockNotFound
                && r->Err_0->MockNotFound_0 == id),
    {
        let found = self.recordings.remove_id(id);
        assert(old(self).recordings() == old(self).recordings.items());
        assert(self.recordings() == self.recordings.items());
        if found {
            Ok(())
        } else {
            Err(ServerAdapterError::MockNotFound(id))
        }
    }

    /// Deletes every recording.
    pub fn delete_all_recordings(&mut self)
        requires
            old(self).wf(),
        ensures
            final(self).wf(),
            same_mocks(*final(self), *old(self)),
            same_history(*final(self), *old(self)),
            final(self).forwarding_rules() == old(self).forwarding_rules(),
            final(self).next_forwarding_id() == old(self).next_forwarding_id(),
            final(self).proxy_rules() == old(self).proxy_rules(),
            final(self).next_proxy_id() == old(self).next_proxy_id(),
            final(self).recordings().len() == 0,
            final(self).next_recording_id() == old(self).next_recording_id(),
    {
        self.recordings.clear();
    }

    /// All recordings, in order of creation.
    pub fn all_recordings(&self) -> (r: &Vec<ActiveRecording>)
        ensures
            r@ == self.recordings(),
    {
        self.recordings.all()
    }
}

proof fn lemma_first_forward_stable(rs: Seq<ActiveForwardingRule>, r: RequestView, n: nat, m: nat)
    requires
        n <= m <= rs.len(),
        first_forward(rs, r, n) is Some,
    ensures
        first_forward(rs, r, m) == first_forward(rs, r, n),
    decreases m - n,
{
    if m > n {
        lemma_first_forward_stable(rs, r, n, (m - 1) as nat);
    }
}

proof fn lemma_first_proxy_stable(rs: Seq<ActiveProxyRule>, r: RequestView, n: nat, m: nat)
    requires
        n <= m <= rs.len(),
        first_proxy(rs, r, n) is Some,
    ensures
        first_proxy(rs, r, m) == first_proxy(rs, r, n),
    decreases m - n,
{
    if m > n {
        lemma_first_proxy_stable(rs, r, n, (m - 1) as nat);
    }
}

proof fn lemma_last_selectable_is_selectable(ms: Seq<ActiveMock>, r: RequestView, n: nat)
    requires
        n <= ms.len(),
        last_selectable(ms, r, n) is Some,
    ensures
        0 <= last_selectable(ms, r, n)->0 < n,
        mock_selectable(ms[last_selectable(ms, r, n)->0], r),
    decreases n,
{
    if !mock_selectable(ms[n - 1], r) {
        lemma_last_selectable_is_selectable(ms, r, (n - 1) as nat);
    }
}

/// Whether the mock may still answer.
fn is_active(m: &ActiveMock) -> (r: bool)
    ensures
        r == mock_active(*m),
{
    match m.definition.limit {
        None => true,
        Some(n) => m.hits < n,
    }
}

impl StateManager {
    fn find_forward(&self, req: &HttpRequest) -> (r: Option<usize>)
        ensures
            match r {
                Some(i) => i < self.forwarding_rules().len() && first_forward(
                    self.forwarding_rules(),
                    req@,
                    self.forwarding_rules().len(),
                ) == Some(i as int),
                None => first_forward(self.forwarding_rules(), req@, self.forwarding_rules().len())
                    is None,
            },
    {
        let rs = self.forwarding_rules.all();
        let mut i: usize = 0;
        while i < rs.len()
            invariant
                rs@ == self.forwarding_rules(),
                0 <= i <= rs@.len(),
                first_forward(rs@, req@, i as nat) is None,
            decreases rs@.len() - i,
        {
            if all_match(&rs[i].config.request_requirements, req) {
                proof {
                    lemma_first_forward_stable(rs@, req@, (i + 1) as nat, rs@.len());
                }
                return Some(i);
            }
            i = i + 1;
        }
        None
    }

    fn find_proxy(&self, req: &HttpRequest) -> (r: Option<usize>)
        ensures
            match r {
                Some(i) => i < self.proxy_rules().len() && first_proxy(
                    self.proxy_rules(),
                    req@,
                    self.proxy_rules().len(),
                ) == Some(i as int),
                None => first_proxy(self.proxy_rules(), req@, self.proxy_rules().len()) is None,
            },
    {
        let rs = self.proxy_rules.all();
        let mut i: usize = 0;
        while i < rs.len()
            invariant
                rs@ == self.proxy_rules(),
                0 <= i <= rs@.len(),
                first_proxy(rs@, req@, i as nat) is None,
            decreases rs@.len() - i,
        {
            if all_match(&rs[i].config.request_requirements, req) {
                proof {
                    lemma_first_proxy_stable(rs@, req@, (i + 1) as nat, rs@.len());
                }
                return Some(i);
            }
            i = i + 1;
        }
        None
    }

    fn find_mock(&self, req: &HttpRequest) -> (r: Option<usize>)
        ensures
            match r {
                Some(i) => i < self.mocks().len() && last_selectable(
                    self.mocks(),
                    req@,
                    self.mocks().len(),
                ) == Some(i as int),
                None => last_selectable(self.mocks(), req@, self.mocks().len()) is None,
            },
    {
        let ms = self.mocks.all();
        let mut i: usize = ms.len();
        while i > 0
            invariant
                ms@ == self.mocks(),
                0 <= i <= ms@.len(),
                last_selectable(ms@, req@, ms@.len()) == last_selectable(ms@, req@, i as nat),
            decreases i,
        {
            let m = &ms[i - 1];
            if is_active(m) && all_match(&m.definition.matchers, req) {
                return Some(i - 1);
            }
            i = i - 1;
        }
        None
    }

    /// Appends a request to the history, dropping the oldest one when the
    /// history would grow past its limit.
    fn append_history(&mut self, req: HttpRequest)
        requires
            old(self).wf(),
        ensures
            final(self).wf(),
            same_mocks(*final(self), *old(self)),
            same_rules(*final(self), *old(self)),
            final(self).history() == bounded_push(old(self).history(), req@, old(self).history_limit()),
            final(self).history_limit() == old(self).history_limit(),
            final(self).next_sequence() == old(self).next_sequence(),
    {
        let ghost r = req@;
        self.history.push(req);
        let ghost pushed = self.history@;
        assert(requests_view(pushed) =~= old(self).history().push(r));
        if self.history.len() > self.history_limit {
            self.history.remove(0);
            assert(requests_view(self.history@) =~= requests_view(pushed).subrange(
                requests_view(pushed).len() - self.history_limit,
                requests_view(pushed).len() as int,
            ));
        }
    }

    /// Decides what to do with a request, counts a hit on the mock that
    /// answers it, and appends the request to the history.
    pub fn handle_request(&mut self, req: &HttpRequest) -> (d: Dispatch)
        requires
            old(self).wf(),
        ensures
            final(self).wf(),
            d == old(self).dispatch_of(req@),
            same_rules(*final(self), *old(self)),
            final(self).next_mock_id() == old(self).next_mock_id(),
            final(self).mocks().len() == old(self).mocks().len(),
            forall|j: int|
                0 <= j < old(self).mocks().len() ==> {
                    &&& (#[trigger] final(self).mocks()[j]).id == old(self).mocks()[j].id
                    &&& final(self).mocks()[j].definition == old(self).mocks()[j].definition
                    &&& final(self).mocks()[j].hits == if old(self).responder_of(req@) == Some(j) {
                        bumped(old(self).mocks()[j].hits)
                    } else {
                        old(self).mocks()[j].hits
                    }
                },
            final(self).history() == bounded_push(old(self).history(), req@, old(self).history_limit()),
            final(self).history_limit() == old(self).history_limit(),
            final(self).next_sequence() == old(self).next_sequence(),
    {
        let d = match self.find_forward(req) {
            Some(i) => Dispatch::Forward(self.forwarding_rules.items[i].id),
            None => match self.find_proxy(req) {
                Some(i) => Dispatch::Proxy(self.proxy_rules.items[i].id),
                None => match self.find_mock(req) {
                    Some(i) => {
                        let h = self.mocks.items[i].hits;
                        let nh = if h < u64::MAX {
                            h + 1
                        } else {
                            h
                        };
                        let ghost before = self.mocks.items@;
                        self.mocks.items[i].hits = nh;
                        proof {
                            assert(ids_increasing(self.mocks.items@)) by {
                                assert forall|a: int, b: int|
                                    0 <= a < b < self.mocks.items@.len() implies self.mocks.items@[a].spec_id()
                                    < self.mocks.items@[b].spec_id() by {
                                    assert(self.mocks.items@[a].id == before[a].id);
                                    assert(self.mocks.items@[b].id == before[b].id);
                                }
                            }
                            assert forall|k: int| 0 <= k < self.mocks.items@.len() implies #[trigger] self.mocks.items@[k].spec_id()
                                < self.mocks.next_id by {
                                assert(self.mocks.items@[k].id == before[k].id);
                            }
                            lemma_last_selectable_is_selectable(before, req@, before.len());
                            assert forall|k: int| 0 <= k < self.mocks.items().len() implies #[trigger] mock_well_formed(
                                self.mocks.items()[k],
                            ) by {
                                assert(mock_well_formed(before[k]));
                            }
                        }
                        Dispatch::Respond(self.mocks.items[i].id)
                    },
                    None => Dispatch::NotFound,
                },
            },
        };
        let copy = req.duplicate();
        self.append_history(copy);
        d
    }

    /// Empties every category and the history at once; identifiers are not reused.
    pub fn reset(&mut self)
        requires
            old(self).wf(),
        ensures
            final(self).wf(),
            final(self).mocks().len() == 0,
            final(self).forwarding_rules().len() == 0,
            final(self).proxy_rules().len() == 0,
            final(self).recordings().len() == 0,
            final(self).history().len() == 0,
            final(self).history_limit() == old(self).history_limit(),
            final(self).next_mock_id() == old(self).next_mock_id(),
            final(self).next_forwarding_id() == old(self).next_forwarding_id(),
            final(self).next_proxy_id() == old(self).next_proxy_id(),
            final(self).next_recording_id() == old(self).next_recording_id(),
            final(self).next_sequence() == old(self).next_sequence(),
    {
        self.mocks.clear();
        self.forwarding_rules.clear();
        self.proxy_rules.clear();
        self.recordings.clear();
        self.history = Vec::new();
    }

    /// Forgets every request of the history.
    pub fn delete_history(&mut self)
        requires
            old(self).wf(),
        ensures
            final(self).wf(),
            same_mocks(*final(self), *old(self)),
            same_rules(*final(self), *old(self)),
            final(self).history().len() == 0,
            final(self).history_limit() == old(self).history_limit(),
            final(self).next_sequence() == old(self).next_sequence(),
    {
        self.history = Vec::new();
    }

    /// The requests of the history, oldest first.
    pub fn history_requests(&self) -> (r: &Vec<HttpRequest>)
        ensures
            requests_view(r@) == self.history(),
    {
        &self.history
    }
}

/// Listing a category gives its items in order of creation: identifiers,
/// which are handed out in rising order, rise along every listing.
pub proof fn lemma_listing_in_creation_order(s: StateManager)
    requires
        s.wf(),
    ensures
        ids_increasing(s.mocks()),
        ids_increasing(s.forwarding_rules()),
        ids_increasing(s.proxy_rules()),
        ids_increasing(s.recordings()),
{
}

proof fn lemma_last_selectable_at_least(ms: Seq<ActiveMock>, r: RequestView, n: nat, j: int)
    requires
        n <= ms.len(),
        0 <= j < n,
        mock_selectable(ms[j], r),
    ensures
        last_selectable(ms, r, n) is Some,
        j <= last_selectable(ms, r, n)->0 < n,
    decreases n,
{
    if n - 1 != j && !mock_selectable(ms[n - 1], r) {
        lemma_last_selectable_at_least(ms, r, (n - 1) as nat, j);
    }
}

/// Of two mocks that both may answer a request, the earlier one is never
/// chosen when no rule takes the request: a mock created at or after the
/// later one answers.
pub proof fn lemma_latest_mock_wins(s: StateManager, r: RequestView, i: int, j: int)
    requires
        s.wf(),
        0 <= i < j < s.mocks().len(),
        mock_selectable(s.mocks()[i], r),
        mock_selectable(s.mocks()[j], r),
        first_forward(s.forwarding_rules(), r, s.forwarding_rules().len()) is None,
        first_proxy(s.proxy_rules(), r, s.proxy_rules().len()) is None,
    ensures
        s.dispatch_of(r) != Dispatch::Respond(s.mocks()[i].id),
        exists|k: int|
            j <= k < s.mocks().len() && s.responder_of(r) == Some(k) && s.dispatch_of(r)
                == Dispatch::Respond(s.mocks()[k].id),
{
    let ms = s.mocks();
    lemma_last_selectable_at_least(ms, r, ms.len(), j);
    let k = last_selectable(ms, r, ms.len())->0;
    assert(ms[i].id < ms[k].id);
}

proof fn lemma_first_forward_found(rs: Seq<ActiveForwardingRule>, r: RequestView, n: nat, i: int)
    requires
        n <= rs.len(),
        0 <= i < n,
        all_accept(rs[i].config.request_requirements@, r),
    ensures
        first_forward(rs, r, n) is Some,
    decreases n,
{
    if n - 1 != i {
        lemma_first_forward_found(rs, r, (n - 1) as nat, i);
    }
}

/// When a forwarding rule accepts a request, the request is forwarded and no
/// mock is consulted: none answers it, so no hit is counted.
pub proof fn lemma_forwarding_precedence(s: StateManager, r: RequestView, i: int)
    requires
        0 <= i < s.forwarding_rules().len(),
        all_accept(s.forwarding_rules()[i].config.request_requirements@, r),
    ensures
        s.dispatch_of(r) is Forward,
        s.responder_of(r) is None,
{
    lemma_first_forward_found(s.forwarding_rules(), r, s.forwarding_rules().len(), i);
}

/// A mock never answers more often than its limit: its hits stay within the
/// limit, and once they reach it the mock is not chosen again.
pub proof fn lemma_limit_enforced(s: StateManager, r: RequestView, i: int)
    requires
        s.wf(),
        0 <= i < s.mocks().len(),
    ensures
        mock_within_limit(s.mocks()[i]),
        s.mocks()[i].definition.limit == Some(s.mocks()[i].hits) ==> s.responder_of(r) != Some(i),
{
    assert(mock_well_formed(s.mocks()[i]));
    let ms = s.mocks();
    if s.responder_of(r) == Some(i) {
        lemma_last_selectable_is_selectable(ms, r, ms.len());
    }
}

/// However many requests arrive, the history holds at most `limit` of them,
/// and exactly the last `limit` in order of arrival.
pub proof fn lemma_history_keeps_last(arrivals: Seq<RequestView>, limit: nat)
    ensures
        history_after(arrivals, limit).len() <= limit,
        history_after(arrivals, limit) == arrivals.subrange(
            if arrivals.len() > limit {
                arrivals.len() - limit
            } else {
                0
            },
            arrivals.len() as int,
        ),
    decreases arrivals.len(),
{
    if arrivals.len() > 0 {
        let prev = arrivals.drop_last();
        lemma_history_keeps_last(prev, limit);
        let h = history_after(prev, limit);
        let p = h.push(arrivals.last());
        let start = if arrivals.len() > limit {
            arrivals.len() - limit
        } else {
            0
        };
        let pstart = if prev.len() > limit {
            prev.len() - limit
        } else {
            0
        };
        assert(p =~= arrivals.subrange(pstart, arrivals.len() as int));
        if p.len() > limit {
            assert(p.subrange(p.len() - limit, p.len() as int) =~= arrivals.subrange(
                start,
                arrivals.len() as int,
            ));
        } else {
            assert(p =~= arrivals.subrange(start, arrivals.len() as int));
        }
    }
}

/// The result of a closest-match search: which candidate came closest and
/// how it scored.
pub struct ClosestMatch {
    /// The mock's identifier, or the request's position in the history.
    pub id: usize,
    pub score: Score,
}

/// `(d1, u1)` comes no later than `(d2, u2)`: smaller distance first, then
/// fewer rejecting matchers.
pub open spec fn key_le(d1: u64, u1: nat, d2: u64, u2: nat) -> bool {
    d1 < d2 || (d1 == d2 && u1 <= u2)
}

pub open spec fn mock_distance(m: ActiveMock, r: RequestView) -> u64 {
    clip(distance_sum(m.definition.matchers@, r, m.definition.matchers@.len()))
}

pub open spec fn mock_unmatched(m: ActiveMock, r: RequestView) -> nat {
    unmatched_count(m.definition.matchers@, r, m.definition.matchers@.len())
}

/// The mock at `i` is the closest to the request: no mock has a smaller
/// distance, none of equal distance has fewer rejecting matchers, and every
/// earlier mock (with a lower identifier) comes strictly later.
pub open spec fn is_closest_mock(ms: Seq<ActiveMock>, r: RequestView, i: int) -> bool {
    &&& 0 <= i < ms.len()
    &&& forall|j: int|
        0 <= j < ms.len() ==> #[trigger] mock_key_le(ms, r, i, j) && (j < i ==> !mock_key_le(
            ms,
            r,
            j,
            i,
        ))
}

/// The mock at `a` comes no later than the mock at `b` in the closest-match order.
pub open spec fn mock_key_le(ms: Seq<ActiveMock>, r: RequestView, a: int, b: int) -> bool {
    key_le(
        mock_distance(ms[a], r),
        mock_unmatched(ms[a], r),
        mock_distance(ms[b], r),
        mock_unmatched(ms[b], r),
    )
}

/// The request at `a` comes no later than the request at `b` in the closest-match order.
pub open spec fn request_key_le(ms: Seq<Matcher>, h: Seq<RequestView>, a: int, b: int) -> bool {
    key_le(
        request_distance(ms, h[a]),
        request_unmatched(ms, h[a]),
        request_distance(ms, h[b]),
        request_unmatched(ms, h[b]),
    )
}

/// The mock at `best` is the closest among the first `n`.
pub open spec fn mock_closest_among(ms: Seq<ActiveMock>, r: RequestView, best: int, n: int) -> bool {
    forall|k: int|
        0 <= k < n ==> #[trigger] mock_key_le(ms, r, best, k) && (k < best ==> !mock_key_le(
            ms,
            r,
            k,
            best,
        ))
}

/// The request at `best` is the closest among the first `n`.
pub open spec fn request_closest_among(
    ms: Seq<Matcher>,
    h: Seq<RequestView>,
    best: int,
    n: int,
) -> bool {
    forall|k: int|
        0 <= k < n ==> #[trigger] request_key_le(ms, h, best, k) && (k < best ==> !request_key_le(
            ms,
            h,
            k,
            best,
        ))
}

proof fn lemma_mock_closest_step(ms: Seq<ActiveMock>, r: RequestView, ob: int, j: int, nb: int)
    requires
        0 <= ob < j < ms.len(),
        mock_closest_among(ms, r, ob, j),
        (nb == j && !mock_key_le(ms, r, ob, j)) || (nb == ob && mock_key_le(ms, r, ob, j)),
    ensures
        mock_closest_among(ms, r, nb, j + 1),
{
    assert forall|k: int| 0 <= k < j + 1 implies #[trigger] mock_key_le(ms, r, nb, k) && (k < nb
        ==> !mock_key_le(ms, r, k, nb)) by {
        if k < j {
            assert(mock_key_le(ms, r, ob, k));
        }
    }
}

proof fn lemma_request_closest_step(
    ms: Seq<Matcher>,
    h: Seq<RequestView>,
    ob: int,
    j: int,
    nb: int,
)
    requires
        0 <= ob < j < h.len(),
        request_closest_among(ms, h, ob, j),
        (nb == j && !request_key_le(ms, h, ob, j)) || (nb == ob && request_key_le(ms, h, ob, j)),
    ensures
        request_closest_among(ms, h, nb, j + 1),
{
    assert forall|k: int| 0 <= k < j + 1 implies #[trigger] request_key_le(ms, h, nb, k) && (k < nb
        ==> !request_key_le(ms, h, k, nb)) by {
        if k < j {
            assert(request_key_le(ms, h, ob, k));
        }
    }
}

pub open spec fn request_distance(ms: Seq<Matcher>, r: RequestView) -> u64 {
    clip(distance_sum(ms, r, ms.len()))
}

pub open spec fn request_unmatched(ms: Seq<Matcher>, r: RequestView) -> nat {
    unmatched_count(ms, r, ms.len())
}

/// The request at `i` of the history is the closest to the requirements,
/// with ties going to the earlier request.
pub open spec fn is_closest_request(ms: Seq<Matcher>, h: Seq<RequestView>, i: int) -> bool {
    &&& 0 <= i < h.len()
    &&& forall|j: int|
        0 <= j < h.len() ==> #[trigger] request_key_le(ms, h, i, j) && (j < i ==> !request_key_le(
            ms,
            h,
            j,
            i,
        ))
}

impl StateManager {
    /// The mock closest to a request, by the sum of its matchers' distances,
    /// then by fewer rejecting matchers, then by lower identifier; `None`
    /// when there is no mock. The breakdown sums to the distance.
    pub fn closest_mock(&self, req: &HttpRequest) -> (r: Option<ClosestMatch>)
        ensures
            r is None <==> self.mocks().len() == 0,
            match r {
                Some(c) => exists|i: int|
                    {
                        let m = #[trigger] self.mocks()[i];
                        &&& is_closest_mock(self.mocks(), req@, i)
                        &&& c.id == m.id
                        &&& c.score.distance == mock_distance(m, req@)
                        &&& c.score.unmatched == mock_unmatched(m, req@)
                        &&& c.score.breakdown@.len() == m.definition.matchers@.len()
                        &&& forall|k: int|
                            0 <= k < m.definition.matchers@.len() ==> c.score.breakdown@[k]
                                == (#[trigger] m.definition.matchers@[k]).distance(req@)
                        &&& seq_sum(c.score.breakdown@) == distance_sum(
                            m.definition.matchers@,
                            req@,
                            m.definition.matchers@.len(),
                        )
                    },
                None => true,
            },
    {
        let ms = self.mocks.all();
        if ms.len() == 0 {
            return None;
        }
        let mut best: usize = 0;
        let mut best_score = score(&ms[0].definition.matchers, req);
        let mut j: usize = 1;
        while j < ms.len()
            invariant
                ms@ == self.mocks(),
                0 <= best < j <= ms@.len(),
                best_score.distance == mock_distance(ms@[best as int], req@),
                best_score.unmatched == mock_unmatched(ms@[best as int], req@),
                best_score.breakdown@.len() == ms@[best as int].definition.matchers@.len(),
                forall|k: int|
                    0 <= k < ms@[best as int].definition.matchers@.len() ==> best_score.breakdown@[k]
                        == (#[trigger] ms@[best as int].definition.matchers@[k]).distance(req@),
                seq_sum(best_score.breakdown@) == distance_sum(
                    ms@[best as int].definition.matchers@,
                    req@,
                    ms@[best as int].definition.matchers@.len(),
                ),
                mock_closest_among(ms@, req@, best as int, j as int),
            decreases ms@.len() - j,
        {
            let sc = score(&ms[j].definition.matchers, req);
            let ghost ob = best as int;
            if sc.distance < best_score.distance || (sc.distance == best_score.distance
                && sc.unmatched < best_score.unmatched) {
                best = j;
                best_score = sc;
            }
            proof {
                lemma_mock_closest_step(ms@, req@, ob, j as int, best as int);
            }
            j = j + 1;
        }
        let m = &ms[best];
        Some(ClosestMatch { id: m.id, score: best_score })
    }

    /// Checks requirements against the history: `None` when some request of
    /// the history meets them all, or when the history is empty; otherwise
    /// the request that came closest, with its position in the history.
    pub fn verify(&self, requirements: &Vec<Matcher>) -> (r: Option<ClosestMatch>)
        ensures
            r is None <==> (self.history().len() == 0 || exists|k: int|
                0 <= k < self.history().len() && all_accept(requirements@, #[trigger] self.history()[k])),
            match r {
                Some(c) => {
                    let i = c.id as int;
                    let h = self.history();
                    &&& is_closest_request(requirements@, h, i)
                    &&& c.score.distance == request_distance(requirements@, h[i])
                    &&& c.score.unmatched == request_unmatched(requirements@, h[i])
                    &&& c.score.breakdown@.len() == requirements@.len()
                    &&& forall|k: int|
                        0 <= k < requirements@.len() ==> c.score.breakdown@[k]
                            == (#[trigger] requirements@[k]).distance(h[i])
                    &&& seq_sum(c.score.breakdown@) == distance_sum(
                        requirements@,
                        h[i],
                        requirements@.len(),
                    )
                },
                None => true,
            },
    {
        let hs = &self.history;
        let ghost h = self.history();
        if hs.len() == 0 {
            return None;
        }
        let mut k: usize = 0;
        while k < hs.len()
            invariant
                h == requests_view(hs@),
                h == self.history(),
                0 <= k <= hs@.len(),
                forall|q: int| 0 <= q < k ==> !all_accept(requirements@, #[trigger] h[q]),
            decreases hs@.len() - k,
        {
            if all_match(requirements, &hs[k]) {
                assert(all_accept(requirements@, h[k as int]));
                assert(self.history()[k as int] == h[k as int]);
                return None;
            }
            k = k + 1;
        }
        let mut best: usize = 0;
        let mut best_score = score(requirements, &hs[0]);
        let mut j: usize = 1;
        while j < hs.len()
            invariant
                h == requests_view(hs@),
                forall|q: int| 0 <= q < h.len() ==> !all_accept(requirements@, #[trigger] h[q]),
                0 <= best < j <= hs@.len(),
                best_score.distance == request_distance(requirements@, h[best as int]),
                best_score.unmatched == request_unmatched(requirements@, h[best as int]),
                best_score.breakdown@.len() == requirements@.len(),
                forall|q: int|
                    0 <= q < requirements@.len() ==> best_score.breakdown@[q]
                        == (#[trigger] requirements@[q]).distance(h[best as int]),
                seq_sum(best_score.breakdown@) == distance_sum(
                    requirements@,
                    h[best as int],
                    requirements@.len(),
                ),
                request_closest_among(requirements@, h, best as int, j as int),
            decreases hs@.len() - j,
        {
            let sc = score(requirements, &hs[j]);
            let ghost ob = best as int;
            if sc.distance < best_score.distance || (sc.distance == best_score.distance
                && sc.unmatched < best_score.unmatched) {
                best = j;
                best_score = sc;
            }
            proof {
                lemma_request_closest_step(requirements@, h, ob, j as int, best as int);
            }
            j = j + 1;
        }
        Some(ClosestMatch { id: best, score: best_score })
    }
}

/// The entry holds what a recording keeps of one exchange, under that sequence number.
pub open spec fn entry_of_exchange(
    e: RecordedEntry,
    r: RequestView,
    config: RecordingRuleConfig,
    resp: RecordedResponse,
    sequence: u64,
) -> bool {
    &&& e.sequence == sequence
    &&& captures(e.request, r, config.record_headers@)
    &&& e.response.status == resp.status
    &&& pairs_view(e.response.headers@) == pairs_view(resp.headers@)
    &&& e.response.body@ == resp.body@
    &&& e.response.delay_ms == if config.record_response_delays {
        resp.delay_ms
    } else {
        0
    }
}

impl StateManager {
    /// Commits an exchange to every recording whose filter accepts the
    /// request, under the next sequence number. An exchange that did not
    /// complete (the client went away before the response was sent) leaves
    /// every recording as it was.
    pub fn record_exchange(&mut self, req: &HttpRequest, resp: &RecordedResponse, completed: bool)
        requires
            old(self).wf(),
            old(self).next_sequence() < u64::MAX,
        ensures
            final(self).wf(),
            same_mocks(*final(self), *old(self)),
            final(self).forwarding_rules() == old(self).forwarding_rules(),
            final(self).next_forwarding_id() == old(self).next_forwarding_id(),
            final(self).proxy_rules() == old(self).proxy_rules(),
            final(self).next_proxy_id() == old(self).next_proxy_id(),
            final(self).next_recording_id() == old(self).next_recording_id(),
            final(self).history() == old(self).history(),
            final(self).history_limit() == old(self).history_limit(),
            !completed ==> final(self).recordings() == old(self).recordings()
                && final(self).next_sequence() == old(self).next_sequence(),
            completed ==> final(self).next_sequence() == old(self).next_sequence() + 1,
            final(self).recordings().len() == old(self).recordings().len(),
            forall|i: int|
                0 <= i < old(self).recordings().len() ==> {
                    let o = old(self).recordings()[i];
                    let n = #[trigger] final(self).recordings()[i];
                    &&& n.id == o.id
                    &&& n.config == o.config
                    &&& if completed && all_accept(o.config.request_requirements@, req@) {
                        &&& n.entries@.len() == o.entries@.len() + 1
                        &&& n.entries@.drop_last() == o.entries@
                        &&& entry_of_exchange(
                            n.entries@.last(),
                            req@,
                            o.config,
                            *resp,
                            old(self).next_sequence(),
                        )
                    } else {
                        n.entries == o.entries
                    }
                },
    {
        if !completed {
            return;
        }
        let sequence = self.next_sequence;
        let n = self.recordings.items.len();
        let mut i: usize = 0;
        while i < n
            invariant
                n == self.recordings.items@.len(),
                n == old(self).recordings.items@.len(),
                0 <= i <= n,
                sequence == old(self).next_sequence,
                self.recordings.next_id == old(self).recordings.next_id,
                self.mocks == old(self).mocks,
                self.forwarding_rules == old(self).forwarding_rules,
                self.proxy_rules == old(self).proxy_rules,
                self.history == old(self).history,
                self.history_limit == old(self).history_limit,
                self.next_sequence == old(self).next_sequence,
                forall|k: int|
                    0 <= k < n ==> {
                        let o = old(self).recordings.items@[k];
                        let c = #[trigger] self.recordings.items@[k];
                        &&& c.id == o.id
                        &&& c.config == o.config
                        &&& if k < i && all_accept(o.config.request_requirements@, req@) {
                            &&& c.entries@.len() == o.entries@.len() + 1
                            &&& c.entries@.drop_last() == o.entries@
                            &&& entry_of_exchange(c.entries@.last(), req@, o.config, *resp, sequence)
                        } else {
                            c.entries == o.entries
                        }
                    },
            decreases n - i,
        {
            if all_match(&self.recordings.items[i].config.request_requirements, req) {
                let request = capture_request(req, &self.recordings.items[i].config.record_headers);
                let response = copy_response(
                    resp,
                    self.recordings.items[i].config.record_response_delays,
                );
                let entry = RecordedEntry { sequence, request, response };
                let ghost before = self.recordings.items@;
                self.recordings.items[i].entries.push(entry);
                assert(self.recordings.items@[i as int].entries@.drop_last() =~= before[i as int].entries@);
            }
            i = i + 1;
        }
        self.next_sequence = sequence + 1;
        proof {
            let items = self.recordings.items@;
            let olds = old(self).recordings.items@;
            assert forall|a: int, b: int| 0 <= a < b < items.len() implies items[a].spec_id()
                < items[b].spec_id() by {
                assert(items[a].id == olds[a].id);
                assert(items[b].id == olds[b].id);
            }
            assert forall|k: int| 0 <= k < items.len() implies #[trigger] items[k].spec_id()
                < self.recordings.next_id by {
                assert(items[k].id == olds[k].id);
                assert(old(self).recordings.wf());
                assert(olds[k].spec_id() < old(self).recordings.next_id);
            }
        }
    }

    /// The entries of the recording with that identifier, in order of capture.
    pub fn export_recording(&self, id: usize) -> (r: Result<&Vec<RecordedEntry>, ServerAdapterError>)
        ensures
            match r {
                Ok(es) => exists|i: int|
                    has_id_at(self.recordings(), id, i) && es@ == self.recordings()[i].entries@,
                Err(e) => (e is MockNotFound && e->MockNotFound_0 == id) && forall|i: int|
                    !has_id_at(self.recordings(), id, i),
            },
    {
        match self.recordings.position(id) {
            Some(i) => {
                assert(has_id_at(self.recordings(), id, i as int));
                Ok(&self.recordings.items[i].entries)
            },
            None => Err(ServerAdapterError::MockNotFound(id)),
        }
    }
}

impl StateManager {
    /// Plays recorded entries back: each becomes a mock, in the order given,
    /// whose matchers reproduce the recorded request and whose response is
    /// the recorded one. Nothing is installed when some entry holds a key
    /// with a line break.
    pub fn create_mocks_from_entries(&mut self, entries: &Vec<RecordedEntry>) -> (r: Result<
        Vec<usize>,
        ServerAdapterError,
    >)
        requires
            old(self).wf(),
            old(self).next_mock_id() + entries@.len() < usize::MAX,
        ensures
            final(self).wf(),
            same_rules(*final(self), *old(self)),
            same_history(*final(self), *old(self)),
            (r is Ok) == (forall|k: int| 0 <= k < entries@.len() ==> entry_playable(#[trigger] entries@[k])),
            r is Err ==> same_mocks(*final(self), *old(self)) && r->Err_0 is InvalidMockDefinitionError,
            r is Ok ==> {
                let ids = r->Ok_0@;
                let n0 = old(self).mocks().len();
                &&& ids.len() == entries@.len()
                &&& final(self).mocks().len() == n0 + entries@.len()
                &&& final(self).mocks().subrange(0, n0 as int) == old(self).mocks()
                &&& final(self).next_mock_id() == old(self).next_mock_id() + entries@.len()
                &&& forall|k: int|
                    0 <= k < entries@.len() ==> {
                        let m = #[trigger] final(self).mocks()[n0 + k];
                        &&& m.id == ids[k]
                        &&& ids[k] == old(self).next_mock_id() + k
                        &&& m.hits == 0
                        &&& playback_definition(m.definition, entries@[k])
                    }
            },
    {
        let mut defs: Vec<MockDefinition> = Vec::new();
        let mut i: usize = 0;
        while i < entries.len()
            invariant
                *self == *old(self),
                self.wf(),
                0 <= i <= entries@.len(),
                defs@.len() == i,
                forall|k: int| 0 <= k < i ==> playback_definition(#[trigger] defs@[k], entries@[k]),
                forall|k: int| 0 <= k < i ==> entry_playable(#[trigger] entries@[k]),
            decreases entries@.len() - i,
        {
            let d = definition_for_entry(&entries[i]);
            proof {
                lemma_playback_valid(d, entries@[i as int]);
            }
            if !is_valid_definition(&d) {
                return Err(
                    ServerAdapterError::InvalidMockDefinitionError(
                        String::from_str("recorded entry holds a key with a line break"),
                    ),
                );
            }
            defs.push(d);
            i = i + 1;
        }
        let ghost n0 = self.mocks().len();
        let ghost start = self.mocks.next_id;
        let mut ids: Vec<usize> = Vec::new();
        let mut j: usize = 0;
        let ghost all_defs = defs@;
        while defs.len() > 0
            invariant
                self.wf(),
                same_rules(*self, *old(self)),
                same_history(*self, *old(self)),
                n0 == old(self).mocks().len(),
                start == old(self).next_mock_id(),
                all_defs.len() == entries@.len(),
                forall|k: int| 0 <= k < all_defs.len() ==> playback_definition(#[trigger] all_defs[k], entries@[k]),
                forall|k: int| 0 <= k < entries@.len() ==> entry_playable(#[trigger] entries@[k]),
                j + defs@.len() == all_defs.len(),
                forall|k: int| 0 <= k < defs@.len() ==> #[trigger] defs@[k] == all_defs[j + k],
                ids@.len() == j,
                self.mocks().len() == n0 + j,
                self.mocks().subrange(0, n0 as int) == old(self).mocks(),
                self.next_mock_id() == start + j,
                start + all_defs.len() < usize::MAX,
                forall|k: int|
                    0 <= k < j ==> {
                        let m = #[trigger] self.mocks()[n0 + k];
                        &&& m.id == ids@[k]
                        &&& ids@[k] == start + k
                        &&& m.hits == 0
                        &&& playback_definition(m.definition, entries@[k])
                    },
            decreases defs@.len(),
        {
            let d = defs.remove(0);
            assert(d == all_defs[j as int]);
            proof {
                lemma_playback_valid(d, entries@[j as int]);
            }
            let ghost before = self.mocks();
            let res = self.create_mock(d);
            match res {
                Ok(id) => {
                    ids.push(id);
                    proof {
                        assert forall|k: int| 0 <= k < j + 1 implies {
                            let m = #[trigger] self.mocks()[n0 + k];
                            &&& m.id == ids@[k]
                            &&& ids@[k] == start + k
                            &&& m.hits == 0
                            &&& playback_definition(m.definition, entries@[k])
                        } by {
                            if k < j {
                                assert(self.mocks()[n0 + k] == before[n0 + k]);
                            }
                        }
                        assert(self.mocks().subrange(0, n0 as int) =~= before.subrange(0, n0 as int));
                    }
                },
                Err(_) => {
                    assert(false);
                },
            }
            j = j + 1;
        }
        Ok(ids)
    }
}

/// Playback reproduces the recording: in a server that holds no rules and
/// exactly the mocks played back from a list of entries, a request that an
/// entry answers, and that no later entry answers, is served by that entry's
/// mock, whose response is the recorded status, headers and body.
pub proof fn lemma_playback_round_trip(
    s: StateManager,
    entries: Seq<RecordedEntry>,
    k: int,
    r: RequestView,
)
    requires
        s.wf(),
        s.forwarding_rules().len() == 0,
        s.proxy_rules().len() == 0,
        s.mocks().len() == entries.len(),
        forall|i: int|
            0 <= i < entries.len() ==> #[trigger] playback_definition(
                s.mocks()[i].definition,
                entries[i],
            ),
        0 <= k < entries.len(),
        entry_accepts(entries[k], r),
        forall|j: int| k < j < entries.len() ==> !entry_accepts(#[trigger] entries[j], r),
    ensures
        s.dispatch_of(r) == Dispatch::Respond(s.mocks()[k].id),
        s.responder_of(r) == Some(k),
        s.mocks()[k].definition.response.status == Some(entries[k].response.status),
        pairs_view(s.mocks()[k].definition.response.headers@) == pairs_view(
            entries[k].response.headers@,
        ),
        s.mocks()[k].definition.response.body@ == entries[k].response.body@,
{
    let ms = s.mocks();
    assert(playback_definition(ms[k].definition, entries[k]));
    lemma_playback_matchers_accept(ms[k].definition.matchers@, entries[k], r);
    assert forall|j: int| k < j < ms.len() implies !mock_selectable(#[trigger] ms[j], r) by {
        assert(playback_definition(ms[j].definition, entries[j]));
        lemma_playback_matchers_accept(ms[j].definition.matchers@, entries[j], r);
    }
    lemma_last_selectable_top(ms, r, ms.len(), k);
}

proof fn lemma_last_selectable_top(ms: Seq<ActiveMock>, r: RequestView, n: nat, k: int)
    requires
        0 <= k < n <= ms.len(),
        mock_selectable(ms[k], r),
        forall|j: int| k < j < ms.len() ==> !mock_selectable(#[trigger] ms[j], r),
    ensures
        last_selectable(ms, r, n) == Some(k),
    decreases n,
{
    if n - 1 != k {
        lemma_last_selectable_top(ms, r, (n - 1) as nat, k);
    }
}

/// A request captured by a recording is answered, after playback, by the
/// entry that captured it.
pub proof fn lemma_recorded_request_replays(
    e: RecordedEntry,
    r: RequestView,
    config: RecordingRuleConfig,
    resp: RecordedResponse,
    sequence: u64,
)
    requires
        entry_of_exchange(e, r, config, resp, sequence),
    ensures
        entry_accepts(e, r),
{
    lemma_captured_request_accepted(e, r, config.record_headers@);
}

/// No query key, request header name or response header name of the entry
/// holds a line break.
pub open spec fn view_playable(e: EntryView) -> bool {
    &&& names_clean(e.query)
    &&& names_clean(e.headers)
    &&& names_clean(e.response_headers)
}

impl StateManager {
    /// Plays a recording document back: its entries, read as the document
    /// format says, become mocks in order. Refused, with nothing installed,
    /// when the document does not read, when an entry holds a key with a line
    /// break, or when the identifiers would run out.
    pub fn create_mocks_from_recording(&mut self, recording_file_content: &str) -> (r: Result<
        Vec<usize>,
        ServerAdapterError,
    >)
        requires
            old(self).wf(),
        ensures
            final(self).wf(),
            same_rules(*final(self), *old(self)),
            same_history(*final(self), *old(self)),
            (r is Ok) == match parse_document(recording_file_content@) {
                Some(evs) => evs.len() < usize::MAX - old(self).next_mock_id() && forall|k: int|
                    0 <= k < evs.len() ==> view_playable(#[trigger] evs[k]),
                None => false,
            },
            r is Err ==> same_mocks(*final(self), *old(self)),
            r is Ok ==> exists|es: Seq<RecordedEntry>|
                {
                    let ids = r->Ok_0@;
                    let n0 = old(self).mocks().len();
                    &&& parse_document(recording_file_content@) == Some(#[trigger] entries_view(es))
                    &&& ids.len() == es.len()
                    &&& final(self).mocks().len() == n0 + es.len()
                    &&& final(self).mocks().subrange(0, n0 as int) == old(self).mocks()
                    &&& forall|k: int|
                        0 <= k < es.len() ==> {
                            let m = #[trigger] final(self).mocks()[n0 + k];
                            &&& m.id == ids[k]
                            &&& m.hits == 0
                            &&& playback_definition(m.definition, es[k])
                        }
                },
    {
        let entries = match import_document(recording_file_content) {
            Some(es) => es,
            None => {
                return Err(
                    ServerAdapterError::InvalidMockDefinitionError(
                        String::from_str("malformed recording document"),
                    ),
                );
            },
        };
        if entries.len() >= usize::MAX - self.mocks.next_id {
            return Err(ServerAdapterError::Unknown);
        }
        proof {
            let evs = entries_view(entries@);
            assert forall|k: int| 0 <= k < entries@.len() implies entry_playable(
                #[trigger] entries@[k],
            ) == view_playable(evs[k]) by {}
        }
        self.create_mocks_from_entries(&entries)
    }

    /// The document of the recording with that identifier.
    pub fn export_recording_document(&self, id: usize) -> (r: Result<String, ServerAdapterError>)
        ensures
            match r {
                Ok(t) => exists|i: int|
                    has_id_at(self.recordings(), id, i) && t@ == document_text(
                        self.recordings()[i].entries@,
                    ),
                Err(e) => (e is MockNotFound && e->MockNotFound_0 == id) && forall|i: int|
                    !has_id_at(self.recordings(), id, i),
            },
    {
        match self.export_recording(id) {
            Ok(es) => Ok(export_document(es)),
            Err(e) => Err(e),
        }
    }
}

/// Playing back a saved document reproduces the recording: when the server
/// holds no rules and exactly the mocks played back from the document of a
/// list of entries whose bodies are text, a request that an entry answers,
/// and that no later entry answers, is served with that entry's recorded
/// status, headers and body.
pub proof fn lemma_document_playback(
    s: StateManager,
    recorded: Seq<RecordedEntry>,
    loaded: Seq<RecordedEntry>,
    k: int,
    r: RequestView,
)
    requires
        forall|j: int| 0 <= j < recorded.len() ==> text_bodies(#[trigger] recorded[j]),
        parse_document(document_text(recorded)) == Some(entries_view(loaded)),
        s.wf(),
        s.forwarding_rules().len() == 0,
        s.proxy_rules().len() == 0,
        s.mocks().len() == loaded.len(),
        forall|i: int|
            0 <= i < loaded.len() ==> #[trigger] playback_definition(
                s.mocks()[i].definition,
                loaded[i],
            ),
        0 <= k < recorded.len(),
        entry_accepts(recorded[k], r),
        forall|j: int| k < j < recorded.len() ==> !entry_accepts(#[trigger] recorded[j], r),
    ensures
        s.dispatch_of(r) == Dispatch::Respond(s.mocks()[k].id),
        s.mocks()[k].definition.response.status == Some(recorded[k].response.status),
        pairs_view(s.mocks()[k].definition.response.headers@) == pairs_view(
            recorded[k].response.headers@,
        ),
        s.mocks()[k].definition.response.body@ == recorded[k].response.body@,
{
    lemma_document_round_trip(recorded);
    assert(entries_view(loaded) == entries_view(recorded));
    assert(loaded.len() == recorded.len()) by {
        assert(entries_view(loaded).len() == loaded.len());
        assert(entries_view(recorded).len() == recorded.len());
    }
    assert forall|j: int| 0 <= j < loaded.len() implies entry_view(#[trigger] loaded[j])
        == entry_view(recorded[j]) by {
        assert(entries_view(loaded)[j] == entries_view(recorded)[j]);
    }
    assert(entry_accepts(loaded[k], r)) by {
        assert(entry_view(loaded[k]) == entry_view(recorded[k]));
    }
    assert forall|j: int| k < j < loaded.len() implies !entry_accepts(#[trigger] loaded[j], r) by {
        assert(entry_view(loaded[j]) == entry_view(recorded[j]));
        assert(!entry_accepts(recorded[j], r));
    }
    lemma_playback_round_trip(s, loaded, k, r);
    assert(entry_view(loaded[k]) == entry_view(recorded[k]));
}

} // verus!
