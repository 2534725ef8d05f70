use vstd::prelude::*;
use crate::events::{
    pattern_matches, patterns_select, same_asset, same_contract_key, AssetIdentifier,
    ContractEventKey, EventKeyType, StacksTransactionEvent,
};

verus! {

/// A registered subscriber: where its payloads go.
#[derive(Debug)]
pub struct EventObserver {
    pub endpoint: String,
}

/// What an observer registers with: its endpoint and its patterns.
#[derive(Debug)]
pub struct EventObserverConfig {
    pub endpoint: String,
    pub events_keys: Vec<EventKeyType>,
}

/// An observer as contracts see it.
pub ghost struct ObserverView {
    pub endpoint: Seq<char>,
    pub patterns: Seq<EventKeyType>,
}

/// The registered observers, in the order of their registration, and for
/// each kind of pattern the observers that subscribed to it.
pub struct EventDispatcher {
    registered_observers: Vec<EventObserver>,
    contract_events_observers_lookup: Vec<(ContractEventKey, u16)>,
    assets_observers_lookup: Vec<(AssetIdentifier, u16)>,
    stx_observers_lookup: Vec<u16>,
    any_event_observers_lookup: Vec<u16>,
    patterns: Ghost<Seq<Seq<EventKeyType>>>,
}

/// Most observers that a dispatcher holds: their indices are 16 bits wide.
pub const MAX_OBSERVERS: usize = 0x1_0000;

spec fn index_listed(list: Seq<u16>, o: int) -> bool {
    exists|i: int| 0 <= i < list.len() && #[trigger] list[i] == o
}

spec fn contract_listed(list: Seq<(ContractEventKey, u16)>, k: ContractEventKey, o: int) -> bool {
    exists|i: int|
        0 <= i < list.len() && same_contract_key((#[trigger] list[i]).0, k) && list[i].1 == o
}

spec fn asset_listed(list: Seq<(AssetIdentifier, u16)>, a: AssetIdentifier, o: int) -> bool {
    exists|i: int| 0 <= i < list.len() && same_asset((#[trigger] list[i]).0, a) && list[i].1 == o
}

spec fn lookup_selects(
    contracts: Seq<(ContractEventKey, u16)>,
    assets: Seq<(AssetIdentifier, u16)>,
    stx: Seq<u16>,
    any: Seq<u16>,
    o: int,
    e: StacksTransactionEvent,
) -> bool {
    ||| index_listed(any, o)
    ||| match e {
        StacksTransactionEvent::SmartContractEvent(k) => contract_listed(contracts, k, o),
        StacksTransactionEvent::STXEvent(_) => index_listed(stx, o),
        StacksTransactionEvent::NFTEvent(_, a) => asset_listed(assets, a, o),
        StacksTransactionEvent::FTEvent(_, a) => asset_listed(assets, a, o),
    }
}

proof fn lemma_index_push(list: Seq<u16>, x: u16, o: int)
    ensures
        index_listed(list.push(x), o) == (index_listed(list, o) || x == o),
{
    let l2 = list.push(x);
    if index_listed(l2, o) {
        let i = choose|i: int| 0 <= i < l2.len() && #[trigger] l2[i] == o;
        if i < list.len() {
            assert(list[i] == o);
        }
    }
    if index_listed(list, o) {
        let i = choose|i: int| 0 <= i < list.len() && #[trigger] list[i] == o;
        assert(l2[i] == o);
    }
    if x == o {
        assert(l2[list.len() as int] == o);
    }
}

proof fn lemma_contract_push(
    list: Seq<(ContractEventKey, u16)>,
    x: (ContractEventKey, u16),
    k: ContractEventKey,
    o: int,
)
    ensures
        contract_listed(list.push(x), k, o) == (contract_listed(list, k, o) || (same_contract_key(
            x.0,
            k,
        ) && x.1 == o)),
{
    let l2 = list.push(x);
    if contract_listed(l2, k, o) {
        let i = choose|i: int|
            0 <= i < l2.len() && same_contract_key((#[trigger] l2[i]).0, k) && l2[i].1 == o;
        if i < list.len() {
            assert(same_contract_key(list[i].0, k) && list[i].1 == o);
        }
    }
    if contract_listed(list, k, o) {
        let i = choose|i: int|
            0 <= i < list.len() && same_contract_key((#[trigger] list[i]).0, k) && list[i].1 == o;
        assert(same_contract_key(l2[i].0, k) && l2[i].1 == o);
    }
    if same_contract_key(x.0, k) && x.1 == o {
        assert(same_contract_key(l2[list.len() as int].0, k) && l2[list.len() as int].1 == o);
    }
}

proof fn lemma_asset_push(
    list: Seq<(AssetIdentifier, u16)>,
    x: (AssetIdentifier, u16),
    a: AssetIdentifier,
    o: int,
)
    ensures
        asset_listed(list.push(x), a, o) == (asset_listed(list, a, o) || (same_asset(x.0, a) && x.1
            == o)),
{
    let l2 = list.push(x);
    if asset_listed(l2, a, o) {
        let i = choose|i: int|
            0 <= i < l2.len() && same_asset((#[trigger] l2[i]).0, a) && l2[i].1 == o;
        if i < list.len() {
            assert(same_asset(list[i].0, a) && list[i].1 == o);
        }
    }
    if asset_listed(list, a, o) {
        let i = choose|i: int|
            0 <= i < list.len() && same_asset((#[trigger] list[i]).0, a) && list[i].1 == o;
        assert(same_asset(l2[i].0, a) && l2[i].1 == o);
    }
    if same_asset(x.0, a) && x.1 == o {
        assert(same_asset(l2[list.len() as int].0, a) && l2[list.len() as int].1 == o);
    }
}

proof fn lemma_patterns_step(ps: Seq<EventKeyType>, k: int, e: StacksTransactionEvent)
    requires
        0 <= k < ps.len(),
    ensures
        patterns_select(ps.subrange(0, k + 1), e) == (patterns_select(ps.subrange(0, k), e)
            || pattern_matches(ps[k], e)),
{
    let a = ps.subrange(0, k);
    let b = ps.subrange(0, k + 1);
    if patterns_select(b, e) {
        let i = choose|i: int| 0 <= i < b.len() && pattern_matches(#[trigger] b[i], e);
        if i < k {
            assert(pattern_matches(a[i], e));
        }
    }
    if patterns_select(a, e) {
        let i = choose|i: int| 0 <= i < a.len() && pattern_matches(#[trigger] a[i], e);
        assert(pattern_matches(b[i], e));
    }
    if pattern_matches(ps[k], e) {
        assert(pattern_matches(b[k], e));
    }
}

fn index_in(list: &Vec<u16>, o: u16) -> (r: bool)
    ensures
        r == index_listed(list@, o as int),
{
    let mut i: usize = 0;
    while i < list.len()
        invariant
            i <= list.len(),
            forall|j: int| 0 <= j < i ==> list@[j] != o,
        decreases list.len() - i,
    {
        if list[i] == o {
            return true;
        }
        i += 1;
    }
    false
}

fn contract_in(list: &Vec<(ContractEventKey, u16)>, k: &ContractEventKey, o: u16) -> (r: bool)
    ensures
        r == contract_listed(list@, *k, o as int),
{
    let mut i: usize = 0;
    while i < list.len()
        invariant
            i <= list.len(),
            forall|j: int|
                0 <= j < i ==> !(same_contract_key((#[trigger] list@[j]).0, *k) && list@[j].1 == o),
        decreases list.len() - i,
    {
        if list[i].1 == o && list[i].0.same(k) {
            return true;
        }
        i += 1;
    }
    false
}

fn asset_in(list: &Vec<(AssetIdentifier, u16)>, a: &AssetIdentifier, o: u16) -> (r: bool)
    ensures
        r == asset_listed(list@, *a, o as int),
{
    let mut i: usize = 0;
    while i < list.len()
        invariant
            i <= list.len(),
            forall|j: int|
                0 <= j < i ==> !(same_asset((#[trigger] list@[j]).0, *a) && list@[j].1 == o),
        decreases list.len() - i,
    {
        if list[i].1 == o && list[i].0.same(a) {
            return true;
        }
        i += 1;
    }
    false
}

impl EventDispatcher {
    /// The observers as contracts see them, in the order of their indices.
    pub closed spec fn view(&self) -> Seq<ObserverView> {
        Seq::new(
            self.registered_observers@.len(),
            |o: int|
                ObserverView {
                    endpoint: self.registered_observers@[o].endpoint@,
                    patterns: self.patterns@[o],
                },
        )
    }

    /// The lookups by pattern say of every observer what its own patterns
    /// say, and the observers' indices fit 16 bits.
    pub closed spec fn wf(&self) -> bool {
        &&& self.registered_observers@.len() <= MAX_OBSERVERS
        &&& self.patterns@.len() == self.registered_observers@.len()
        &&& forall|o: int, e: StacksTransactionEvent|
            #[trigger] lookup_selects(
                self.contract_events_observers_lookup@,
                self.assets_observers_lookup@,
                self.stx_observers_lookup@,
                self.any_event_observers_lookup@,
                o,
                e,
            ) == (0 <= o < self.patterns@.len() && patterns_select(self.patterns@[o], e))
    }

    /// A dispatcher without observers.
    pub fn new() -> (d: EventDispatcher)
        ensures
            d.wf(),
            d@ == Seq::<ObserverView>::empty(),
    {
        let d = EventDispatcher {
            registered_observers: Vec::new(),
            contract_events_observers_lookup: Vec::new(),
            assets_observers_lookup: Vec::new(),
            stx_observers_lookup: Vec::new(),
            any_event_observers_lookup: Vec::new(),
            patterns: Ghost(Seq::empty()),
        };
        assert(d@ =~= Seq::<ObserverView>::empty());
        d
    }

    /// The number of registered observers.
    pub fn observer_count(&self) -> (n: usize)
        ensures
            n == self@.len(),
            self.wf() ==> n <= MAX_OBSERVERS,
    {
        self.registered_observers.len()
    }

    /// The endpoint of the observer with the given index.
    pub fn endpoint_of(&self, observer: u16) -> (r: String)
        requires
            observer < self@.len(),
        ensures
            r@ == self@[observer as int].endpoint,
    {
        self.registered_observers[observer as usize].endpoint.clone()
    }

    /// Whether one of the observer's patterns selects the event.
    pub fn is_selected(&self, observer: u16, event: &StacksTransactionEvent) -> (r: bool)
        requires
            self.wf(),
            observer < self@.len(),
        ensures
            r == patterns_select(self@[observer as int].patterns, *event),
    {
        let by_kind = match event {
            StacksTransactionEvent::SmartContractEvent(k) => contract_in(
                &self.contract_events_observers_lookup,
                k,
                observer,
            ),
            StacksTransactionEvent::STXEvent(_) => index_in(&self.stx_observers_lookup, observer),
            StacksTransactionEvent::NFTEvent(_, a) => asset_in(
                &self.assets_observers_lookup,
                a,
                observer,
            ),
            StacksTransactionEvent::FTEvent(_, a) => asset_in(
                &self.assets_observers_lookup,
                a,
                observer,
            ),
        };
        let by_any = index_in(&self.any_event_observers_lookup, observer);
        assert((by_kind || by_any) == lookup_selects(
            self.contract_events_observers_lookup@,
            self.assets_observers_lookup@,
            self.stx_observers_lookup@,
            self.any_event_observers_lookup@,
            observer as int,
            *event,
        ));
        by_kind || by_any
    }

    /// Registers an observer under the next free index, with the patterns
    /// of its configuration.
    pub fn register_observer(&mut self, conf: &EventObserverConfig)
        requires
            old(self).wf(),
            old(self)@.len() < MAX_OBSERVERS,
        ensures
            final(self).wf(),
            final(self)@ == old(self)@.push(
                ObserverView { endpoint: conf.endpoint@, patterns: conf.events_keys@ },
            ),
    {
        let event_observer = EventObserver { endpoint: conf.endpoint.clone() };
        let count: usize = self.registered_observers.len();
        let observer_index: u16 = count as u16;
        let ghost n = count as int;
        let ghost keys = conf.events_keys@;
        let ghost c0 = self.contract_events_observers_lookup@;
        let ghost a0 = self.assets_observers_lookup@;
        let ghost s0 = self.stx_observers_lookup@;
        let ghost y0 = self.any_event_observers_lookup@;
        let ghost view0 = self@;
        let mut k: usize = 0;
        while k < conf.events_keys.len()
            invariant
                k <= conf.events_keys.len(),
                keys == conf.events_keys@,
                observer_index == n,
                self.registered_observers == old(self).registered_observers,
                self.patterns == old(self).patterns,
                forall|o: int, e: StacksTransactionEvent|
                    #[trigger] lookup_selects(
                        self.contract_events_observers_lookup@,
                        self.assets_observers_lookup@,
                        self.stx_observers_lookup@,
                        self.any_event_observers_lookup@,
                        o,
                        e,
                    ) == (lookup_selects(c0, a0, s0, y0, o, e) || (o == n && patterns_select(
                        keys.subrange(0, k as int),
                        e,
                    ))),
            decreases conf.events_keys.len() - k,
        {
            let ghost c1 = self.contract_events_observers_lookup@;
            let ghost a1 = self.assets_observers_lookup@;
            let ghost s1 = self.stx_observers_lookup@;
            let ghost y1 = self.any_event_observers_lookup@;
            match &conf.events_keys[k] {
                EventKeyType::SmartContractEvent(event_key) => {
                    self.contract_events_observers_lookup.push(
                        (event_key.duplicate(), observer_index),
                    );
                },
                EventKeyType::STXEvent => {
                    self.stx_observers_lookup.push(observer_index);
                },
                EventKeyType::AssetEvent(event_key) => {
                    self.assets_observers_lookup.push((event_key.duplicate(), observer_index));
                },
                EventKeyType::AnyEvent => {
                    self.any_event_observers_lookup.push(observer_index);
                },
            }
            proof {
                let c2 = self.contract_events_observers_lookup@;
                let a2 = self.assets_observers_lookup@;
                let s2 = self.stx_observers_lookup@;
                let y2 = self.any_event_observers_lookup@;
                assert forall|o: int, e: StacksTransactionEvent|
                    #[trigger] lookup_selects(c2, a2, s2, y2, o, e) == (lookup_selects(
                        c0,
                        a0,
                        s0,
                        y0,
                        o,
                        e,
                    ) || (o == n && patterns_select(keys.subrange(0, k + 1), e))) by {
                    lemma_patterns_step(keys, k as int, e);
                    assert(lookup_selects(c1, a1, s1, y1, o, e) == (lookup_selects(
                        c0,
                        a0,
                        s0,
                        y0,
                        o,
                        e,
                    ) || (o == n && patterns_select(keys.subrange(0, k as int), e))));
                    match keys[k as int] {
                        EventKeyType::SmartContractEvent(event_key) => {
                            match e {
                                StacksTransactionEvent::SmartContractEvent(k2) => {
                                    lemma_contract_push(c1, (event_key, observer_index), k2, o);
                                },
                                _ => {},
                            }
                        },
                        EventKeyType::STXEvent => {
                            lemma_index_push(s1, observer_index, o);
                        },
                        EventKeyType::AssetEvent(event_key) => {
                            match e {
                                StacksTransactionEvent::NFTEvent(_, a) => {
                                    lemma_asset_push(a1, (event_key, observer_index), a, o);
                                },
                                StacksTransactionEvent::FTEvent(_, a) => {
                                    lemma_asset_push(a1, (event_key, observer_index), a, o);
                                },
                                _ => {},
                            }
                        },
                        EventKeyType::AnyEvent => {
                            lemma_index_push(y1, observer_index, o);
                        },
                    }
                }
            }
            k += 1;
        }
        proof {
            assert(keys.subrange(0, keys.len() as int) =~= keys);
        }
        self.registered_observers.push(event_observer);
        self.patterns = Ghost(self.patterns@.push(keys));
        proof {
            assert(self@ =~= view0.push(
                ObserverView { endpoint: conf.endpoint@, patterns: conf.events_keys@ },
            ));
            assert forall|o: int, e: StacksTransactionEvent|
                #[trigger] lookup_selects(
                    self.contract_events_observers_lookup@,
                    self.assets_observers_lookup@,
                    self.stx_observers_lookup@,
                    self.any_event_observers_lookup@,
                    o,
                    e,
                ) == (0 <= o < self.patterns@.len() && patterns_select(self.patterns@[o], e)) by {
                assert(lookup_selects(c0, a0, s0, y0, o, e) == (0 <= o < n && patterns_select(
                    old(self).patterns@[o],
                    e,
                )));
            }
        }
    }
}

} // verus!
