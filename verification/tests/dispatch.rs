use marf_store::dispatcher::{EventDispatcher, EventObserverConfig};
use marf_store::events::{
    AssetIdentifier, ContractEventKey, EventKeyType, FTEventType, NFTEventType, STXEventType,
    StacksTransactionEvent, Txid,
};
use marf_store::hex::to_hex;
use marf_store::payload::{
    build_transactions, check_responses, flatten_events, BlockMetadata, ChainTip, Receipt,
    TransactionResult,
};

fn asset(name: &str) -> AssetIdentifier {
    AssetIdentifier { contract_identifier: "SP000.tokens".to_string(), asset_name: name.to_string() }
}

fn key(contract: &str, topic: &str) -> ContractEventKey {
    ContractEventKey { contract_identifier: contract.to_string(), topic: topic.to_string() }
}

fn observer(endpoint: &str, events_keys: Vec<EventKeyType>) -> EventObserverConfig {
    EventObserverConfig { endpoint: endpoint.to_string(), events_keys }
}

fn receipt(n: u8, events: Vec<StacksTransactionEvent>) -> Receipt {
    Receipt {
        txid: Txid([n; 32]),
        raw_tx: vec![n, 0xab],
        result: TransactionResult::Response { committed: n % 2 == 0, data: vec![0x07, n] },
        events,
        contract_abi: None,
    }
}

fn tip(receipts: Vec<Receipt>) -> ChainTip {
    ChainTip {
        metadata: BlockMetadata {
            block_hash: [0x11; 32],
            block_height: 1234,
            index_block_hash: [0x22; 32],
            parent_block_hash: [0x33; 32],
            parent_microblock_hash: [0x00; 32],
        },
        receipts,
    }
}

fn positions(p: &marf_store::payload::Payload) -> Vec<usize> {
    p.events.iter().map(|e| e.position).collect()
}

#[test]
fn hex_is_lower_case_and_padded() {
    assert_eq!(to_hex(&[]), b"0x".to_vec());
    assert_eq!(to_hex(&[0x00, 0xab, 0x0f, 0xff, 0x9a]), b"0x00ab0fff9a".to_vec());
    assert_eq!(to_hex(&[0x11; 32]).len(), 66);
}

#[test]
fn dispatch_fan_out() {
    let mut d = EventDispatcher::new();
    d.register_observer(&observer("o1:1", vec![EventKeyType::AnyEvent]));
    d.register_observer(&observer("o2:2", vec![EventKeyType::AssetEvent(asset("a"))]));
    d.register_observer(&observer(
        "o3:3",
        vec![EventKeyType::SmartContractEvent(key("c", "t"))],
    ));
    assert_eq!(d.observer_count(), 3);
    let chain_tip = tip(vec![receipt(
        1,
        vec![
            StacksTransactionEvent::STXEvent(STXEventType::STXTransferEvent),
            StacksTransactionEvent::NFTEvent(NFTEventType::NFTTransferEvent, asset("a")),
            StacksTransactionEvent::SmartContractEvent(key("c", "t")),
            StacksTransactionEvent::SmartContractEvent(key("c", "t2")),
        ],
    )]);
    let payloads = d.process_chain_tip(&chain_tip).unwrap();
    assert_eq!(payloads.len(), 3);
    assert_eq!(payloads[0].observer, 0);
    assert_eq!(payloads[0].endpoint, "o1:1");
    assert_eq!(positions(&payloads[0]), vec![0, 1, 2, 3]);
    assert_eq!(payloads[1].observer, 1);
    assert_eq!(payloads[1].endpoint, "o2:2");
    assert_eq!(positions(&payloads[1]), vec![1]);
    assert_eq!(payloads[2].observer, 2);
    assert_eq!(positions(&payloads[2]), vec![2]);
}

#[test]
fn event_matching_several_patterns_is_sent_once() {
    let mut d = EventDispatcher::new();
    d.register_observer(&observer(
        "o:1",
        vec![
            EventKeyType::STXEvent,
            EventKeyType::AnyEvent,
            EventKeyType::STXEvent,
            EventKeyType::AssetEvent(asset("a")),
            EventKeyType::AssetEvent(asset("a")),
        ],
    ));
    let chain_tip = tip(vec![
        receipt(1, vec![StacksTransactionEvent::STXEvent(STXEventType::STXMintEvent)]),
        receipt(2, vec![]),
        receipt(
            3,
            vec![
                StacksTransactionEvent::FTEvent(FTEventType::FTMintEvent, asset("a")),
                StacksTransactionEvent::STXEvent(STXEventType::STXBurnEvent),
            ],
        ),
    ]);
    let payloads = d.process_chain_tip(&chain_tip).unwrap();
    assert_eq!(payloads.len(), 1);
    assert_eq!(positions(&payloads[0]), vec![0, 1, 2]);
    let e = &payloads[0].events;
    assert_eq!((e[0].receipt_index, e[0].event_index, e[0].txid), (0, 0, Txid([1; 32])));
    assert_eq!((e[1].receipt_index, e[1].event_index, e[1].txid), (2, 0, Txid([3; 32])));
    assert_eq!((e[2].receipt_index, e[2].event_index, e[2].txid), (2, 1, Txid([3; 32])));
}

#[test]
fn observers_without_a_match_get_nothing() {
    let mut d = EventDispatcher::new();
    d.register_observer(&observer("o1:1", vec![EventKeyType::STXEvent]));
    d.register_observer(&observer("o2:2", vec![EventKeyType::AssetEvent(asset("b"))]));
    d.register_observer(&observer("o3:3", vec![]));
    d.register_observer(&observer("o4:4", vec![EventKeyType::AssetEvent(asset("a"))]));
    let chain_tip = tip(vec![
        receipt(1, vec![StacksTransactionEvent::NFTEvent(NFTEventType::NFTMintEvent, asset("a"))]),
        receipt(
            2,
            vec![StacksTransactionEvent::FTEvent(FTEventType::FTTransferEvent, asset("a"))],
        ),
    ]);
    let payloads = d.process_chain_tip(&chain_tip).unwrap();
    assert_eq!(payloads.len(), 1);
    assert_eq!(payloads[0].observer, 3);
    assert_eq!(payloads[0].endpoint, "o4:4");
    assert_eq!(positions(&payloads[0]), vec![0, 1]);
    let empty = tip(vec![receipt(1, vec![])]);
    assert_eq!(d.process_chain_tip(&empty).unwrap().len(), 0);
}

#[test]
fn contract_patterns_need_contract_and_topic() {
    let mut d = EventDispatcher::new();
    d.register_observer(&observer("o:1", vec![EventKeyType::SmartContractEvent(key("c", "t"))]));
    assert!(d.is_selected(0, &StacksTransactionEvent::SmartContractEvent(key("c", "t"))));
    assert!(!d.is_selected(0, &StacksTransactionEvent::SmartContractEvent(key("c", "u"))));
    assert!(!d.is_selected(0, &StacksTransactionEvent::SmartContractEvent(key("d", "t"))));
    assert!(!d.is_selected(0, &StacksTransactionEvent::STXEvent(STXEventType::STXTransferEvent)));
    assert!(!d.is_selected(
        0,
        &StacksTransactionEvent::NFTEvent(NFTEventType::NFTMintEvent, asset("t"))
    ));
    assert_eq!(d.endpoint_of(0), "o:1");
}

#[test]
fn non_response_result_stops_the_dispatch() {
    let mut d = EventDispatcher::new();
    d.register_observer(&observer("o:1", vec![EventKeyType::AnyEvent]));
    let mut bad = receipt(2, vec![StacksTransactionEvent::STXEvent(STXEventType::STXMintEvent)]);
    bad.result = TransactionResult::Other;
    let chain_tip = tip(vec![
        receipt(1, vec![StacksTransactionEvent::STXEvent(STXEventType::STXMintEvent)]),
        bad,
    ]);
    assert!(!check_responses(&chain_tip.receipts));
    assert!(d.process_chain_tip(&chain_tip).is_none());
}

#[test]
fn payload_carries_block_and_transactions() {
    let mut d = EventDispatcher::new();
    d.register_observer(&observer("o:1", vec![EventKeyType::AnyEvent]));
    let mut publish = receipt(4, vec![]);
    publish.contract_abi = Some("{\"functions\":[]}".to_string());
    let chain_tip = tip(vec![
        receipt(3, vec![StacksTransactionEvent::STXEvent(STXEventType::STXMintEvent)]),
        publish,
    ]);
    let payloads = d.process_chain_tip(&chain_tip).unwrap();
    assert_eq!(payloads.len(), 1);
    let p = &payloads[0];
    assert_eq!(p.block_height, 1234);
    assert_eq!(p.block_hash, format!("0x{}", "11".repeat(32)).into_bytes());
    assert_eq!(p.index_block_hash, format!("0x{}", "22".repeat(32)).into_bytes());
    assert_eq!(p.parent_block_hash, format!("0x{}", "33".repeat(32)).into_bytes());
    assert_eq!(p.parent_microblock, format!("0x{}", "00".repeat(32)).into_bytes());
    assert_eq!(p.transactions.len(), 2);
    let t0 = &p.transactions[0];
    assert_eq!(t0.txid, format!("0x{}", "03".repeat(32)).into_bytes());
    assert_eq!(t0.tx_index, 0);
    assert!(!t0.success);
    assert_eq!(t0.raw_result, b"0x0703".to_vec());
    assert_eq!(t0.raw_tx, b"0x03ab".to_vec());
    assert_eq!(t0.contract_abi, None);
    let t1 = &p.transactions[1];
    assert_eq!(t1.tx_index, 1);
    assert!(t1.success);
    assert_eq!(t1.raw_result, b"0x0704".to_vec());
    assert_eq!(t1.raw_tx, b"0x04ab".to_vec());
    assert_eq!(t1.contract_abi, Some("{\"functions\":[]}".to_string()));
}

#[test]
fn events_are_listed_in_block_order() {
    let receipts = vec![
        receipt(1, vec![]),
        receipt(
            2,
            vec![
                StacksTransactionEvent::STXEvent(STXEventType::STXMintEvent),
                StacksTransactionEvent::STXEvent(STXEventType::STXBurnEvent),
            ],
        ),
        receipt(3, vec![StacksTransactionEvent::STXEvent(STXEventType::STXMintEvent)]),
    ];
    assert_eq!(flatten_events(&receipts), vec![(1, 0), (1, 1), (2, 0)]);
    assert!(check_responses(&receipts));
    assert_eq!(build_transactions(&receipts).len(), 3);
}

#[test]
fn later_observers_do_not_change_earlier_ones() {
    let mut d = EventDispatcher::new();
    d.register_observer(&observer("o1:1", vec![EventKeyType::STXEvent]));
    let stx = StacksTransactionEvent::STXEvent(STXEventType::STXTransferEvent);
    let nft = StacksTransactionEvent::NFTEvent(NFTEventType::NFTTransferEvent, asset("a"));
    assert!(d.is_selected(0, &stx));
    assert!(!d.is_selected(0, &nft));
    d.register_observer(&observer("o2:2", vec![EventKeyType::AssetEvent(asset("a"))]));
    assert!(d.is_selected(0, &stx));
    assert!(!d.is_selected(0, &nft));
    assert!(!d.is_selected(1, &stx));
    assert!(d.is_selected(1, &nft));
}
