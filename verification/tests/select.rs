use btp::peer_wire::{ExtendedMessage, PeerInfo};
use btp::select::{
    next_state, ControlMessage, DiscoveryError, DiscoveryTrait, ExtendedListener, ExtendedModule,
    ExtendedPeerInfo, IDiscoveryMessage, IExtendedMessage, IUberMessage, ModuleState,
    ODiscoveryMessage, OExtendedMessage, OUberMessage, Run, UberError, UberModuleBuilder,
};
use btp::utracker::PeerAddr;

struct Counter {
    seen: usize,
    fail_on_download: bool,
    pending: Vec<Result<ODiscoveryMessage, DiscoveryError>>,
}

impl ExtendedListener for Counter {
    fn extended_by(&self, _info: PeerInfo, _builder: ExtendedMessage) -> ExtendedMessage {
        ExtendedMessage { ut_metadata_id: Some(3) }
    }

    fn heard_update(&self, _info: PeerInfo, _extended: ExtendedPeerInfo, after: Self) -> bool {
        after.seen == self.seen && after.pending.len() == self.pending.len()
    }

    fn extend(&self, _info: &PeerInfo, _builder: ExtendedMessage) -> ExtendedMessage {
        ExtendedMessage { ut_metadata_id: Some(3) }
    }

    fn on_update(&mut self, _info: &PeerInfo, _extended: &ExtendedPeerInfo) {}
}

impl Run for Counter {
    fn took(&self, _item: IDiscoveryMessage, _r: Result<Option<IDiscoveryMessage>, DiscoveryError>, after: Self) -> bool {
        after.seen == self.seen + 1
    }

    fn gave(&self, r: Option<Result<ODiscoveryMessage, DiscoveryError>>, after: Self) -> bool {
        r.is_none() == self.pending.is_empty() && after.seen == self.seen
    }

    fn send(&mut self, item: IDiscoveryMessage) -> Result<Option<IDiscoveryMessage>, DiscoveryError> {
        self.seen += 1;
        match item {
            IDiscoveryMessage::DownloadMetainfo(_) if self.fail_on_download => Err(DiscoveryError::InvalidMessage),
            _ => Ok(None),
        }
    }

    fn poll(&mut self) -> Option<Result<ODiscoveryMessage, DiscoveryError>> {
        if self.pending.is_empty() {
            None
        } else {
            Some(self.pending.remove(0))
        }
    }
}

impl DiscoveryTrait for Counter {}

fn peer(n: u8) -> PeerInfo {
    PeerInfo { addr: PeerAddr::V4(n as u32, 6881), pid: [n; 20], hash: [9; 20] }
}

#[test]
fn round_order_of_modules() {
    assert_eq!(next_state(true, 2, None), Some(ModuleState::Extended));
    assert_eq!(next_state(true, 2, Some(ModuleState::Extended)), Some(ModuleState::Discovery(0)));
    assert_eq!(next_state(true, 2, Some(ModuleState::Discovery(0))), Some(ModuleState::Discovery(1)));
    assert_eq!(next_state(true, 2, Some(ModuleState::Discovery(1))), None);
    assert_eq!(next_state(false, 0, None), None);
    assert_eq!(next_state(false, 1, None), Some(ModuleState::Discovery(0)));
}

#[test]
fn extended_peer_info_updates() {
    let mut info = ExtendedPeerInfo::new(None, None);
    info.update_ours(ExtendedMessage { ut_metadata_id: Some(1) });
    info.update_theirs(ExtendedMessage { ut_metadata_id: None });
    assert_eq!(info.our_message(), Some(ExtendedMessage { ut_metadata_id: Some(1) }));
    assert_eq!(info.their_message(), Some(ExtendedMessage { ut_metadata_id: None }));
}

#[test]
fn extended_module_handshakes() {
    let builder = ExtendedMessage { ut_metadata_id: Some(2) };
    let mut module = ExtendedModule::new(builder);
    let mut none: Vec<Counter> = Vec::new();
    module.process_message(IExtendedMessage::Control(ControlMessage::PeerConnected(peer(1))), &mut none);
    match module.poll() {
        Some(OExtendedMessage::SendExtendedMessage(p, ext)) => {
            assert_eq!(p.pid, peer(1).pid);
            assert_eq!(ext, builder);
        }
        None => panic!("expected a handshake to send"),
    }
    assert!(module.poll().is_none());

    let mut modules = vec![Counter { seen: 0, fail_on_download: false, pending: Vec::new() }];
    module.process_message(IExtendedMessage::Control(ControlMessage::PeerConnected(peer(2))), &mut modules);
    match module.poll() {
        Some(OExtendedMessage::SendExtendedMessage(_, ext)) => assert_eq!(ext.ut_metadata_id, Some(3)),
        None => panic!("expected a handshake to send"),
    }
    module.process_message(
        IExtendedMessage::RecievedExtendedMessage(peer(2), ExtendedMessage { ut_metadata_id: Some(7) }),
        &mut modules,
    );
    module.process_message(IExtendedMessage::Control(ControlMessage::PeerDisconnected(peer(2))), &mut modules);
    assert!(module.poll().is_none());
}

#[test]
fn uber_module_passes_messages_on() {
    let mut uber = UberModuleBuilder::new()
        .with_extended_builder(Some(ExtendedMessage { ut_metadata_id: Some(1) }))
        .with_discovery_module(Counter { seen: 0, fail_on_download: false, pending: Vec::new() })
        .with_discovery_module(Counter { seen: 0, fail_on_download: true, pending: Vec::new() })
        .build();
    assert_eq!(uber.send(IUberMessage::Control(ControlMessage::Tick(5))), Ok(None));
    assert_eq!(
        uber.send(IUberMessage::Discovery(IDiscoveryMessage::DownloadMetainfo([1; 20]))),
        Err(UberError::Discovery(DiscoveryError::InvalidMessage))
    );
    assert_eq!(uber.send(IUberMessage::Control(ControlMessage::Tick(5))), Ok(None));
}

#[test]
fn uber_module_polls_each_module() {
    let first = Counter {
        seen: 0,
        fail_on_download: false,
        pending: vec![Ok(ODiscoveryMessage::SendDhtAnnounce([5; 20]))],
    };
    let second = Counter {
        seen: 0,
        fail_on_download: false,
        pending: vec![Err(DiscoveryError::InvalidMessage), Ok(ODiscoveryMessage::DownloadedMetainfo(vec![1]))],
    };
    let mut uber = UberModuleBuilder::new()
        .with_extended_builder(Some(ExtendedMessage { ut_metadata_id: Some(1) }))
        .with_discovery_module(first)
        .with_discovery_module(second)
        .build();
    uber.send(IUberMessage::Extended(IExtendedMessage::Control(ControlMessage::PeerConnected(peer(4)))))
        .unwrap();
    assert!(matches!(uber.poll(), Ok(Some(OUberMessage::Extended(_)))));
    assert!(matches!(uber.poll(), Ok(Some(OUberMessage::Discovery(ODiscoveryMessage::SendDhtAnnounce(_))))));
    assert_eq!(uber.poll().err(), Some(UberError::Discovery(DiscoveryError::InvalidMessage)));
    assert!(matches!(uber.poll(), Ok(Some(OUberMessage::Discovery(ODiscoveryMessage::DownloadedMetainfo(_))))));
    assert!(matches!(uber.poll(), Ok(None)));
}

#[test]
fn uber_module_without_modules() {
    let mut uber: btp::select::UberModule<Counter> = UberModuleBuilder::new().build();
    assert_eq!(uber.send(IUberMessage::Control(ControlMessage::Tick(1))), Ok(None));
    assert!(matches!(uber.poll(), Ok(None)));
}

#[test]
fn uber_module_queues_a_handshake_per_connected_peer() {
    let builder = ExtendedMessage { ut_metadata_id: None };
    let mut uber: btp::select::UberModule<Counter> =
        UberModuleBuilder::new().with_extended_builder(Some(builder)).build();
    assert_eq!(uber.send(IUberMessage::Control(ControlMessage::PeerConnected(peer(1)))), Ok(None));
    assert_eq!(uber.send(IUberMessage::Control(ControlMessage::PeerConnected(peer(2)))), Ok(None));
    match uber.poll() {
        Ok(Some(OUberMessage::Extended(OExtendedMessage::SendExtendedMessage(p, e)))) => {
            assert_eq!(p.pid, peer(1).pid);
            assert_eq!(e, builder);
        }
        _ => panic!("expected the first handshake"),
    }
    match uber.poll() {
        Ok(Some(OUberMessage::Extended(OExtendedMessage::SendExtendedMessage(p, e)))) => {
            assert_eq!(p.pid, peer(2).pid);
            assert_eq!(e, builder);
        }
        _ => panic!("expected the second handshake"),
    }
    assert!(matches!(uber.poll(), Ok(None)));
}
