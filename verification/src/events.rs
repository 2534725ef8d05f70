use vstd::prelude::*;

verus! {

/// Identifier of a transaction: 32 opaque bytes.
#[derive(Clone, Copy, Debug, PartialEq, Eq)]
pub struct Txid(pub [u8; 32]);

/// What a smart-contract event is filed under: the contract that emitted
/// it and the topic.
#[derive(Debug)]
pub struct ContractEventKey {
    pub contract_identifier: String,
    pub topic: String,
}

/// Names an asset: the contract that defines it and the asset's name.
#[derive(Debug)]
pub struct AssetIdentifier {
    pub contract_identifier: String,
    pub asset_name: String,
}

#[derive(Clone, Copy, Debug, PartialEq, Eq)]
pub enum STXEventType {
    STXTransferEvent,
    STXMintEvent,
    STXBurnEvent,
}

#[derive(Clone, Copy, Debug, PartialEq, Eq)]
pub enum NFTEventType {
    NFTTransferEvent,
    NFTMintEvent,
}

#[derive(Clone, Copy, Debug, PartialEq, Eq)]
pub enum FTEventType {
    FTTransferEvent,
    FTMintEvent,
}

/// An event emitted by a transaction, as far as dispatch reads it.
#[derive(Debug)]
pub enum StacksTransactionEvent {
    SmartContractEvent(ContractEventKey),
    STXEvent(STXEventType),
    NFTEvent(NFTEventType, AssetIdentifier),
    FTEvent(FTEventType, AssetIdentifier),
}

/// A pattern that an observer subscribes to.
#[derive(Debug)]
pub enum EventKeyType {
    SmartContractEvent(ContractEventKey),
    STXEvent,
    AssetEvent(AssetIdentifier),
    AnyEvent,
}

/// Whether two contract event keys name the same contract and topic.
pub open spec fn same_contract_key(a: ContractEventKey, b: ContractEventKey) -> bool {
    a.contract_identifier@ == b.contract_identifier@ && a.topic@ == b.topic@
}

/// Whether two asset identifiers name the same asset.
pub open spec fn same_asset(a: AssetIdentifier, b: AssetIdentifier) -> bool {
    a.contract_identifier@ == b.contract_identifier@ && a.asset_name@ == b.asset_name@
}

/// Whether the pattern selects the event.
pub open spec fn pattern_matches(p: EventKeyType, e: StacksTransactionEvent) -> bool {
    match p {
        EventKeyType::AnyEvent => true,
        EventKeyType::STXEvent => e is STXEvent,
        EventKeyType::SmartContractEvent(k) => match e {
            StacksTransactionEvent::SmartContractEvent(k2) => same_contract_key(k, k2),
            _ => false,
        },
        EventKeyType::AssetEvent(a) => match e {
            StacksTransactionEvent::NFTEvent(_, a2) => same_asset(a, a2),
            StacksTransactionEvent::FTEvent(_, a2) => same_asset(a, a2),
            _ => false,
        },
    }
}

/// Whether one of the patterns selects the event.
pub open spec fn patterns_select(ps: Seq<EventKeyType>, e: StacksTransactionEvent) -> bool {
    exists|k: int| 0 <= k < ps.len() && pattern_matches(#[trigger] ps[k], e)
}

impl ContractEventKey {
    /// Whether both keys name the same contract and topic.
    pub fn same(&self, other: &ContractEventKey) -> (r: bool)
        ensures
            r == same_contract_key(*self, *other),
    {
        self.contract_identifier == other.contract_identifier && self.topic == other.topic
    }

    /// A copy of the key.
    pub fn duplicate(&self) -> (r: ContractEventKey)
        ensures
            r == *self,
    {
        ContractEventKey {
            contract_identifier: self.contract_identifier.clone(),
            topic: self.topic.clone(),
        }
    }
}

impl AssetIdentifier {
    /// Whether both identifiers name the same asset.
    pub fn same(&self, other: &AssetIdentifier) -> (r: bool)
        ensures
            r == same_asset(*self, *other),
    {
        self.contract_identifier == other.contract_identifier && self.asset_name
            == other.asset_name
    }

    /// A copy of the identifier.
    pub fn duplicate(&self) -> (r: AssetIdentifier)
        ensures
            r == *self,
    {
        AssetIdentifier {
            contract_identifier: self.contract_identifier.clone(),
            asset_name: self.asset_name.clone(),
        }
    }
}

} // verus!
