use bookworm::data_types::{ExchangePriceLevel, Summary};
use bookworm::summary_manager::{copy_summary, refused_clients, SummaryManager};
use bookworm::data_tunnel::create_summary_tunnel;

fn summary() -> Summary {
    Summary {
        spread: "1".to_string(),
        bids: vec![ExchangePriceLevel { exchange: "A".to_string(), price: "10".to_string(), amount: "1".to_string() }],
        asks: vec![ExchangePriceLevel { exchange: "B".to_string(), price: "11".to_string(), amount: "2".to_string() }],
    }
}

#[test]
fn broadcast_reaches_every_client() {
    let mut manager = SummaryManager::new();
    let (tx1, mut rx1) = create_summary_tunnel();
    let (tx2, mut rx2) = create_summary_tunnel();
    manager.add_summary_sender(1, tx1);
    manager.add_summary_sender(2, tx2);
    manager.broadcast(&summary());
    let s1 = rx1.try_recv().unwrap();
    let s2 = rx2.try_recv().unwrap();
    assert_eq!(s1.bids[0].price, "10");
    assert_eq!(s2.asks[0].amount, "2");
    assert_eq!(s2.spread, "1");
}

#[test]
fn closed_clients_are_removed() {
    let mut manager = SummaryManager::new();
    let (tx1, rx1) = create_summary_tunnel();
    let (tx2, mut rx2) = create_summary_tunnel();
    manager.add_summary_sender(1, tx1);
    manager.add_summary_sender(2, tx2);
    drop(rx1);
    manager.broadcast(&summary());
    assert!(rx2.try_recv().is_ok());
    let (tx3, mut rx3) = create_summary_tunnel();
    manager.add_summary_sender(3, tx3);
    manager.broadcast(&summary());
    assert!(rx2.try_recv().is_ok());
    assert!(rx3.try_recv().is_ok());
}

#[test]
fn removed_clients_get_nothing() {
    let mut manager = SummaryManager::new();
    let (tx1, mut rx1) = create_summary_tunnel();
    manager.add_summary_sender(7, tx1);
    manager.remove_summary_sender(&7);
    manager.broadcast(&summary());
    assert!(rx1.try_recv().is_err());
}

#[test]
fn adding_a_client_again_replaces_its_sender() {
    let mut manager = SummaryManager::new();
    let (tx1, mut rx1) = create_summary_tunnel();
    let (tx2, mut rx2) = create_summary_tunnel();
    manager.add_summary_sender(5, tx1);
    manager.add_summary_sender(5, tx2);
    manager.broadcast(&summary());
    assert!(rx1.try_recv().is_err());
    assert!(rx2.try_recv().is_ok());
}

#[test]
fn copy_summary_copies_levels() {
    let s = summary();
    let c = copy_summary(&s);
    assert_eq!(c.bids[0].exchange, "A");
    assert_eq!(c.asks[0].price, "11");
}

#[test]
fn default_manager_serves_nobody() {
    let mut manager = SummaryManager::default();
    manager.broadcast(&summary());
    let (tx, mut rx) = create_summary_tunnel();
    manager.add_summary_sender(9, tx);
    manager.broadcast(&summary());
    assert!(rx.try_recv().is_ok());
}

#[test]
fn broadcast_reports_each_outcome_in_order() {
    let mut manager = SummaryManager::new();
    let (tx1, rx1) = create_summary_tunnel();
    let (tx2, _rx2) = create_summary_tunnel();
    manager.add_summary_sender(1, tx1);
    manager.add_summary_sender(2, tx2);
    drop(rx1);
    assert_eq!(manager.broadcast(&summary()), vec![false, true]);
    assert_eq!(manager.broadcast(&summary()), vec![true]);
}

#[test]
fn refused_clients_keeps_the_refused_ones() {
    assert_eq!(refused_clients(&vec![4, 5, 6], &vec![true, false, false]), vec![5, 6]);
    assert!(refused_clients(&vec![], &vec![]).is_empty());
}

#[test]
fn broadcast_plan_gives_each_client_a_copy() {
    let mut manager = SummaryManager::new();
    let (tx1, _rx1) = create_summary_tunnel();
    let (tx2, _rx2) = create_summary_tunnel();
    manager.add_summary_sender(7, tx1);
    manager.add_summary_sender(3, tx2);
    let plan = manager.broadcast_plan(&summary());
    assert_eq!(plan.len(), 2);
    let mut ids: Vec<u128> = plan.iter().map(|(id, _)| *id).collect();
    ids.sort();
    assert_eq!(ids, vec![3, 7]);
    for (_, s) in plan.iter() {
        assert_eq!(s.spread, "1");
        assert_eq!(s.bids[0].exchange, "A");
        assert_eq!(s.bids[0].price, "10");
        assert_eq!(s.asks[0].price, "11");
        assert_eq!(s.asks[0].amount, "2");
    }
}
