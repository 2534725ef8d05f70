use vstd::prelude::*;
use crate::dispatcher::{EventDispatcher, ObserverView, MAX_OBSERVERS};
use crate::events::{patterns_select, EventKeyType, StacksTransactionEvent, Txid};
use crate::hex::{hex_of, to_hex};

verus! {

/// What a block's payload says of the block itself.
#[derive(Clone, Copy, Debug)]
pub struct BlockMetadata {
    pub block_hash: [u8; 32],
    pub block_height: u64,
    pub index_block_hash: [u8; 32],
    pub parent_block_hash: [u8; 32],
    pub parent_microblock_hash: [u8; 32],
}

/// The result of a transaction: a response, with its committed flag and
/// its serialized inner value, or anything else.
#[derive(Debug)]
pub enum TransactionResult {
    Response { committed: bool, data: Vec<u8> },
    Other,
}

/// One transaction's outcome: its id, its serialized body, its result, the
/// events it emitted and, for a contract publish, the contract's interface.
#[derive(Debug)]
pub struct Receipt {
    pub txid: Txid,
    pub raw_tx: Vec<u8>,
    pub result: TransactionResult,
    pub events: Vec<StacksTransactionEvent>,
    pub contract_abi: Option<String>,
}

/// The block just committed and its receipts, in order.
#[derive(Debug)]
pub struct ChainTip {
    pub metadata: BlockMetadata,
    pub receipts: Vec<Receipt>,
}

/// An event of a payload: its position in the block's event stream, the
/// receipt and the place within the receipt that it stands at, and the id
/// of its transaction.
#[derive(Clone, Copy, Debug)]
pub struct EventEntry {
    pub position: usize,
    pub receipt_index: usize,
    pub event_index: usize,
    pub txid: Txid,
}

/// A transaction of a payload. The texts are ASCII.
#[derive(Debug)]
pub struct TransactionEntry {
    pub txid: Vec<u8>,
    pub tx_index: u32,
    pub success: bool,
    pub raw_result: Vec<u8>,
    pub raw_tx: Vec<u8>,
    pub contract_abi: Option<String>,
}

/// What one observer is sent for one block. The texts are ASCII.
#[derive(Debug)]
pub struct Payload {
    pub observer: u16,
    pub endpoint: String,
    pub block_hash: Vec<u8>,
    pub block_height: u64,
    pub index_block_hash: Vec<u8>,
    pub parent_block_hash: Vec<u8>,
    pub parent_microblock: Vec<u8>,
    pub events: Vec<EventEntry>,
    pub transactions: Vec<TransactionEntry>,
}

/// Whether every receipt's result is a response.
pub open spec fn all_responses(receipts: Seq<Receipt>) -> bool {
    forall|i: int| 0 <= i < receipts.len() ==> (#[trigger] receipts[i]).result is Response
}

/// The events of the first `n` receipts in block order, each as the index
/// of its receipt and its place within the receipt.
pub open spec fn event_stream(receipts: Seq<Receipt>, n: int) -> Seq<(usize, usize)>
    decreases n,
{
    if n <= 0 {
        Seq::empty()
    } else {
        event_stream(receipts, n - 1) + Seq::new(
            receipts[n - 1].events@.len(),
            |k: int| ((n - 1) as usize, k as usize),
        )
    }
}

/// The event that stands at a place of the stream.
pub open spec fn event_at(receipts: Seq<Receipt>, place: (usize, usize)) -> StacksTransactionEvent {
    receipts[place.0 as int].events@[place.1 as int]
}

/// Of the first `n` positions of the stream, those whose event one of the
/// patterns selects, in ascending order.
pub open spec fn selected_positions(
    patterns: Seq<EventKeyType>,
    receipts: Seq<Receipt>,
    stream: Seq<(usize, usize)>,
    n: int,
) -> Seq<usize>
    decreases n,
{
    if n <= 0 {
        Seq::empty()
    } else {
        let before = selected_positions(patterns, receipts, stream, n - 1);
        if patterns_select(patterns, event_at(receipts, stream[n - 1])) {
            before.push((n - 1) as usize)
        } else {
            before
        }
    }
}

/// The positions that an observer with the given patterns is sent of a
/// block with the given receipts.
pub open spec fn positions_for(patterns: Seq<EventKeyType>, receipts: Seq<Receipt>) -> Seq<usize> {
    let stream = event_stream(receipts, receipts.len() as int);
    selected_positions(patterns, receipts, stream, stream.len() as int)
}

/// Whether the entry is what a payload says of the receipt at `index`.
pub open spec fn transaction_entry_is(t: TransactionEntry, receipt: Receipt, index: int) -> bool {
    &&& receipt.result is Response
    &&& t.txid@ == hex_of(receipt.txid.0@)
    &&& t.tx_index == index
    &&& t.success == receipt.result->committed
    &&& t.raw_result@ == hex_of(receipt.result->data@)
    &&& t.raw_tx@ == hex_of(receipt.raw_tx@)
    &&& t.contract_abi == receipt.contract_abi
}

/// Whether the entries are the block's transactions, in order, numbered
/// from 0.
pub open spec fn transactions_are(ts: Seq<TransactionEntry>, receipts: Seq<Receipt>) -> bool {
    &&& ts.len() == receipts.len()
    &&& forall|i: int| 0 <= i < ts.len() ==> transaction_entry_is(#[trigger] ts[i], receipts[i], i)
}

/// Whether the entries are the events at the given positions, in order.
pub open spec fn events_are(es: Seq<EventEntry>, positions: Seq<usize>, receipts: Seq<Receipt>) -> bool {
    let stream = event_stream(receipts, receipts.len() as int);
    &&& es.len() == positions.len()
    &&& forall|k: int|
        0 <= k < es.len() ==> {
            &&& (#[trigger] es[k]).position == positions[k]
            &&& (es[k].receipt_index, es[k].event_index) == stream[positions[k] as int]
            &&& es[k].txid == receipts[es[k].receipt_index as int].txid
        }
}

/// Whether the payload is what the observer is sent for the block: the
/// events that its patterns select, every transaction, and the block's
/// metadata.
pub open spec fn payload_is(p: Payload, observers: Seq<ObserverView>, tip: ChainTip) -> bool {
    &&& p.observer < observers.len()
    &&& p.endpoint@ == observers[p.observer as int].endpoint
    &&& p.block_hash@ == hex_of(tip.metadata.block_hash@)
    &&& p.block_height == tip.metadata.block_height
    &&& p.index_block_hash@ == hex_of(tip.metadata.index_block_hash@)
    &&& p.parent_block_hash@ == hex_of(tip.metadata.parent_block_hash@)
    &&& p.parent_microblock@ == hex_of(tip.metadata.parent_microblock_hash@)
    &&& p.events@.len() > 0
    &&& events_are(
        p.events@,
        positions_for(observers[p.observer as int].patterns, tip.receipts@),
        tip.receipts@,
    )
    &&& transactions_are(p.transactions@, tip.receipts@)
}

/// Whether the payloads are what a block causes to be sent: one for each
/// observer whose patterns select an event, in the order of the observers.
pub open spec fn payloads_are(ps: Seq<Payload>, observers: Seq<ObserverView>, tip: ChainTip, n: int) -> bool {
    &&& forall|k: int| 0 <= k < ps.len() ==> (#[trigger] ps[k]).observer < n && payload_is(ps[k], observers, tip)
    &&& forall|j: int, k: int|
        0 <= j < k < ps.len() ==> (#[trigger] ps[j]).observer < (#[trigger] ps[k]).observer
    &&& forall|o: int|
        0 <= o < n && positions_for((#[trigger] observers[o]).patterns, tip.receipts@).len() > 0
            ==> exists|k: int| 0 <= k < ps.len() && (#[trigger] ps[k]).observer == o
}

/// Whether every receipt's result is a response.
pub fn check_responses(receipts: &Vec<Receipt>) -> (r: bool)
    ensures
        r == all_responses(receipts@),
{
    let mut i: usize = 0;
    while i < receipts.len()
        invariant
            i <= receipts.len(),
            forall|j: int| 0 <= j < i ==> (#[trigger] receipts@[j]).result is Response,
        decreases receipts.len() - i,
    {
        match &receipts[i].result {
            TransactionResult::Response { .. } => {},
            TransactionResult::Other => {
                return false;
            },
        }
        i += 1;
    }
    true
}

/// Lists the block's events in block order.
pub fn flatten_events(receipts: &Vec<Receipt>) -> (stream: Vec<(usize, usize)>)
    ensures
        stream@ == event_stream(receipts@, receipts@.len() as int),
        forall|p: int|
            0 <= p < stream@.len() ==> (#[trigger] stream@[p]).0 < receipts@.len() && stream@[p].1
                < receipts@[stream@[p].0 as int].events@.len(),
{
    let mut stream: Vec<(usize, usize)> = Vec::new();
    let mut r: usize = 0;
    while r < receipts.len()
        invariant
            r <= receipts.len(),
            stream@ == event_stream(receipts@, r as int),
            forall|p: int|
                0 <= p < stream@.len() ==> (#[trigger] stream@[p]).0 < receipts@.len()
                    && stream@[p].1 < receipts@[stream@[p].0 as int].events@.len(),
        decreases receipts.len() - r,
    {
        let ghost before = stream@;
        let count: usize = receipts[r].events.len();
        let mut k: usize = 0;
        while k < count
            invariant
                k <= count,
                r < receipts.len(),
                count == receipts@[r as int].events@.len(),
                stream@ == before + Seq::new(k as nat, |j: int| (r, j as usize)),
                forall|p: int|
                    0 <= p < stream@.len() ==> (#[trigger] stream@[p]).0 < receipts@.len()
                        && stream@[p].1 < receipts@[stream@[p].0 as int].events@.len(),
            decreases count - k,
        {
            let ghost was = stream@;
            stream.push((r, k));
            proof {
                assert(stream@ =~= before + Seq::new((k + 1) as nat, |j: int| (r, j as usize)));
                assert forall|p: int| 0 <= p < stream@.len() implies (#[trigger] stream@[p]).0
                    < receipts@.len() && stream@[p].1 < receipts@[stream@[p].0 as int].events@.len() by {
                    if p < was.len() {
                        assert(stream@[p] == was[p]);
                    }
                }
            }
            k += 1;
        }
        proof {
            assert(Seq::new(count as nat, |j: int| (r, j as usize)) =~= Seq::new(
                receipts@[r as int].events@.len(),
                |j: int| (((r + 1) - 1) as usize, j as usize),
            ));
        }
        r += 1;
    }
    stream
}

/// What a payload says of each transaction of the block.
pub fn build_transactions(receipts: &Vec<Receipt>) -> (ts: Vec<TransactionEntry>)
    requires
        all_responses(receipts@),
        receipts@.len() <= u32::MAX,
    ensures
        transactions_are(ts@, receipts@),
{
    let mut ts: Vec<TransactionEntry> = Vec::new();
    let mut i: usize = 0;
    while i < receipts.len()
        invariant
            i <= receipts.len(),
            receipts@.len() <= u32::MAX,
            all_responses(receipts@),
            ts@.len() == i,
            forall|j: int| 0 <= j < i ==> transaction_entry_is(#[trigger] ts@[j], receipts@[j], j),
        decreases receipts.len() - i,
    {
        let receipt = &receipts[i];
        assert(receipts@[i as int].result is Response);
        let abi: Option<String> = match &receipt.contract_abi {
            Some(text) => Some(text.clone()),
            None => None,
        };
        match &receipt.result {
            TransactionResult::Response { committed, data } => {
                let entry = TransactionEntry {
                    txid: to_hex(receipt.txid.0.as_slice()),
                    tx_index: i as u32,
                    success: *committed,
                    raw_result: to_hex(data.as_slice()),
                    raw_tx: to_hex(receipt.raw_tx.as_slice()),
                    contract_abi: abi,
                };
                ts.push(entry);
            },
            TransactionResult::Other => {},
        }
        i += 1;
    }
    ts
}

/// The selected positions lie within the stream, ascend strictly, so that
/// none occurs twice, and are exactly the positions whose event one of
/// the patterns selects.
pub proof fn lemma_selected_positions(
    patterns: Seq<EventKeyType>,
    receipts: Seq<Receipt>,
    stream: Seq<(usize, usize)>,
    n: int,
)
    requires
        0 <= n <= stream.len(),
        n <= usize::MAX,
    ensures
        forall|k: int|
            0 <= k < selected_positions(patterns, receipts, stream, n).len() ==> {
                &&& (#[trigger] selected_positions(patterns, receipts, stream, n)[k]) < n
                &&& patterns_select(
                    patterns,
                    event_at(
                        receipts,
                        stream[selected_positions(patterns, receipts, stream, n)[k] as int],
                    ),
                )
            },
        forall|j: int, k: int|
            0 <= j < k < selected_positions(patterns, receipts, stream, n).len() ==> (
            #[trigger] selected_positions(patterns, receipts, stream, n)[j]) < (
            #[trigger] selected_positions(patterns, receipts, stream, n)[k]),
        forall|p: int|
            0 <= p < n && patterns_select(patterns, event_at(receipts, #[trigger] stream[p]))
                ==> selected_positions(patterns, receipts, stream, n).contains(p as usize),
    decreases n,
{
    if n > 0 {
        lemma_selected_positions(patterns, receipts, stream, n - 1);
        let before = selected_positions(patterns, receipts, stream, n - 1);
        let now = selected_positions(patterns, receipts, stream, n);
        if patterns_select(patterns, event_at(receipts, stream[n - 1])) {
            assert(now == before.push((n - 1) as usize));
            assert forall|p: int|
                0 <= p < n && patterns_select(
                    patterns,
                    event_at(receipts, #[trigger] stream[p]),
                ) implies now.contains(p as usize) by {
                if p < n - 1 {
                    assert(before.contains(p as usize));
                    let k = choose|k: int| 0 <= k < before.len() && before[k] == p as usize;
                    assert(now[k] == p as usize);
                } else {
                    assert(now[before.len() as int] == p as usize);
                }
            }
            assert forall|j: int, k: int| 0 <= j < k < now.len() implies (#[trigger] now[j]) < (
            #[trigger] now[k]) by {
                if k == before.len() {
                    assert(before[j] < n - 1);
                } else {
                    assert(before[j] < before[k]);
                }
            }
            assert forall|k: int| 0 <= k < now.len() implies (#[trigger] now[k]) < n
                && patterns_select(patterns, event_at(receipts, stream[now[k] as int])) by {
                if k < before.len() {
                    assert(before[k] < n - 1);
                }
            }
        } else {
            assert(now == before);
            assert forall|k: int| 0 <= k < now.len() implies (#[trigger] now[k]) < n
                && patterns_select(patterns, event_at(receipts, stream[now[k] as int])) by {
                assert(before[k] < n - 1);
            }
        }
    }
}

/// The events of a payload are exactly the block's events that one of the
/// observer's patterns selects: each of them is selected, they stand in
/// block order with none twice, and no selected event is missing.
pub proof fn lemma_payload_events_exact(p: Payload, observers: Seq<ObserverView>, tip: ChainTip)
    requires
        payload_is(p, observers, tip),
        event_stream(tip.receipts@, tip.receipts@.len() as int).len() <= usize::MAX,
    ensures
        forall|j: int, k: int|
            0 <= j < k < p.events@.len() ==> (#[trigger] p.events@[j]).position < (
            #[trigger] p.events@[k]).position,
        forall|k: int|
            0 <= k < p.events@.len() ==> patterns_select(
                observers[p.observer as int].patterns,
                event_at(
                    tip.receipts@,
                    ((#[trigger] p.events@[k]).receipt_index, p.events@[k].event_index),
                ),
            ),
        forall|q: int|
            0 <= q < event_stream(tip.receipts@, tip.receipts@.len() as int).len()
                && patterns_select(
                observers[p.observer as int].patterns,
                event_at(
                    tip.receipts@,
                    #[trigger] event_stream(tip.receipts@, tip.receipts@.len() as int)[q],
                ),
            ) ==> exists|k: int| 0 <= k < p.events@.len() && (#[trigger] p.events@[k]).position == q,
{
    let patterns = observers[p.observer as int].patterns;
    let stream = event_stream(tip.receipts@, tip.receipts@.len() as int);
    let sel = positions_for(patterns, tip.receipts@);
    lemma_selected_positions(patterns, tip.receipts@, stream, stream.len() as int);
    assert forall|j: int, k: int| 0 <= j < k < p.events@.len() implies (
    #[trigger] p.events@[j]).position < (#[trigger] p.events@[k]).position by {
        assert(sel[j] < sel[k]);
    }
    assert forall|k: int| 0 <= k < p.events@.len() implies patterns_select(
        patterns,
        event_at(tip.receipts@, ((#[trigger] p.events@[k]).receipt_index, p.events@[k].event_index)),
    ) by {
        assert(sel[k] < stream.len());
    }
    assert forall|q: int|
        0 <= q < stream.len() && patterns_select(
            patterns,
            event_at(tip.receipts@, #[trigger] stream[q]),
        ) implies exists|k: int|
        0 <= k < p.events@.len() && (#[trigger] p.events@[k]).position == q by {
        assert(sel.contains(q as usize));
        let k = choose|k: int| 0 <= k < sel.len() && sel[k] == q as usize;
        assert(p.events@[k].position == q);
    }
}

impl EventDispatcher {
    /// The positions of the stream whose event one of the observer's
    /// patterns selects, in ascending order.
    pub fn select_events(
        &self,
        observer: u16,
        receipts: &Vec<Receipt>,
        stream: &Vec<(usize, usize)>,
    ) -> (row: Vec<usize>)
        requires
            self.wf(),
            observer < self@.len(),
            forall|p: int|
                0 <= p < stream@.len() ==> (#[trigger] stream@[p]).0 < receipts@.len()
                    && stream@[p].1 < receipts@[stream@[p].0 as int].events@.len(),
        ensures
            row@ == selected_positions(
                self@[observer as int].patterns,
                receipts@,
                stream@,
                stream@.len() as int,
            ),
    {
        let mut row: Vec<usize> = Vec::new();
        let mut p: usize = 0;
        while p < stream.len()
            invariant
                p <= stream.len(),
                self.wf(),
                observer < self@.len(),
                forall|q: int|
                    0 <= q < stream@.len() ==> (#[trigger] stream@[q]).0 < receipts@.len()
                        && stream@[q].1 < receipts@[stream@[q].0 as int].events@.len(),
                row@ == selected_positions(
                    self@[observer as int].patterns,
                    receipts@,
                    stream@,
                    p as int,
                ),
            decreases stream.len() - p,
        {
            let place = stream[p];
            assert(stream@[p as int].0 < receipts@.len());
            let event = &receipts[place.0].events[place.1];
            if self.is_selected(observer, event) {
                row.push(p);
            }
            p += 1;
        }
        row
    }

    /// What a committed block causes to be sent: one payload for each
    /// observer whose patterns select at least one of the block's events,
    /// in the order of the observers. Nothing at all, and `None`, where
    /// the result of some receipt is not a response.
    pub fn process_chain_tip(&self, chain_tip: &ChainTip) -> (r: Option<Vec<Payload>>)
        requires
            self.wf(),
            chain_tip.receipts@.len() <= u32::MAX,
        ensures
            r is Some == all_responses(chain_tip.receipts@),
            r is Some ==> payloads_are(r->0@, self@, *chain_tip, self@.len() as int),
    {
        if !check_responses(&chain_tip.receipts) {
            return None;
        }
        let stream = flatten_events(&chain_tip.receipts);
        let total: usize = stream.len();
        let count: usize = self.observer_count();
        let mut payloads: Vec<Payload> = Vec::new();
        let mut o: usize = 0;
        while o < count
            invariant
                o <= count == self@.len(),
                count <= MAX_OBSERVERS,
                total == stream@.len(),
                self.wf(),
                chain_tip.receipts@.len() <= u32::MAX,
                all_responses(chain_tip.receipts@),
                stream@ == event_stream(chain_tip.receipts@, chain_tip.receipts@.len() as int),
                forall|p: int|
                    0 <= p < stream@.len() ==> (#[trigger] stream@[p]).0 < chain_tip.receipts@.len()
                        && stream@[p].1 < chain_tip.receipts@[stream@[p].0 as int].events@.len(),
                payloads_are(payloads@, self@, *chain_tip, o as int),
            decreases count - o,
        {
            let observer: u16 = o as u16;
            let row = self.select_events(observer, &chain_tip.receipts, &stream);
            let ghost was = payloads@;
            proof {
                lemma_selected_positions(
                    self@[o as int].patterns,
                    chain_tip.receipts@,
                    stream@,
                    stream@.len() as int,
                );
            }
            if row.len() > 0 {
                let mut events: Vec<EventEntry> = Vec::new();
                let mut k: usize = 0;
                while k < row.len()
                    invariant
                        k <= row.len(),
                        forall|j: int| 0 <= j < row@.len() ==> (#[trigger] row@[j]) < stream@.len(),
                        forall|p: int|
                            0 <= p < stream@.len() ==> (#[trigger] stream@[p]).0
                                < chain_tip.receipts@.len(),
                        events@.len() == k,
                        forall|j: int|
                            0 <= j < k ==> {
                                &&& (#[trigger] events@[j]).position == row@[j]
                                &&& (events@[j].receipt_index, events@[j].event_index)
                                    == stream@[row@[j] as int]
                                &&& events@[j].txid
                                    == chain_tip.receipts@[events@[j].receipt_index as int].txid
                            },
                    decreases row.len() - k,
                {
                    let position: usize = row[k];
                    assert(row@[k as int] < stream@.len());
                    let place = stream[position];
                    assert(stream@[position as int].0 < chain_tip.receipts@.len());
                    events.push(
                        EventEntry {
                            position,
                            receipt_index: place.0,
                            event_index: place.1,
                            txid: chain_tip.receipts[place.0].txid,
                        },
                    );
                    k += 1;
                }
                let payload = Payload {
                    observer,
                    endpoint: self.endpoint_of(observer),
                    block_hash: to_hex(chain_tip.metadata.block_hash.as_slice()),
                    block_height: chain_tip.metadata.block_height,
                    index_block_hash: to_hex(chain_tip.metadata.index_block_hash.as_slice()),
                    parent_block_hash: to_hex(chain_tip.metadata.parent_block_hash.as_slice()),
                    parent_microblock: to_hex(
                        chain_tip.metadata.parent_microblock_hash.as_slice(),
                    ),
                    events,
                    transactions: build_transactions(&chain_tip.receipts),
                };
                assert(payload_is(payload, self@, *chain_tip));
                payloads.push(payload);
                proof {
                    let now = payloads@;
                    assert forall|k: int| 0 <= k < now.len() implies (#[trigger] now[k]).observer
                        < o + 1 && payload_is(now[k], self@, *chain_tip) by {
                        if k < was.len() {
                            assert(now[k] == was[k]);
                        }
                    }
                    assert forall|j: int, k: int| 0 <= j < k < now.len() implies (
                    #[trigger] now[j]).observer < (#[trigger] now[k]).observer by {
                        assert(now[j] == was[j]);
                        if k < was.len() {
                            assert(now[k] == was[k]);
                        }
                    }
                    assert forall|q: int|
                        0 <= q < o + 1 && positions_for(
                            (#[trigger] self@[q]).patterns,
                            chain_tip.receipts@,
                        ).len() > 0 implies exists|k: int|
                        0 <= k < now.len() && (#[trigger] now[k]).observer == q by {
                        if q < o {
                            let k = choose|k: int|
                                0 <= k < was.len() && (#[trigger] was[k]).observer == q;
                            assert(now[k] == was[k]);
                        } else {
                            assert(now[was.len() as int].observer == q);
                        }
                    }
                }
            }
            o += 1;
        }
        Some(payloads)
    }
}

} // verus!
