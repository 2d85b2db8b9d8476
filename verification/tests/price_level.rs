use open_match_rs::domain::commands::{PartialFillRequest, UpdateQtyRequest};
use open_match_rs::domain::errors::OrderBookError::{
    DuplicateOrderId, EmptyPriceLevel, InsufficientQuantity, OrderNotFound,
};
use open_match_rs::domain::responses::{
    CommandResult, FillInfo, FilledInfo, QtyUpdatedInfo, RemoveInfo,
};
use open_match_rs::domain::responses::CommandResult::Rejected;
use open_match_rs::order_book::order::Side;
use open_match_rs::order_book::price_level::price_level::PriceLevelQueue;
use open_match_rs::order_book::price_level::requests::EnqueueOrder;
use open_match_rs::time::quanta_clock::QuantaClock;
use open_match_rs::time::TimeSource;

#[derive(Clone)]
pub struct MockClock {
    pub fixed: u64,
}

impl TimeSource for MockClock {
    fn now(&self) -> u64 {
        self.fixed
    }
}

fn create_new_order_request(order_id: u64, qty: u64) -> EnqueueOrder {
    EnqueueOrder { order_id, qty }
}

fn new_queue() -> PriceLevelQueue<MockClock> {
    PriceLevelQueue::new(100, Side::BUY, MockClock { fixed: 123_456_789 })
}

#[test]
fn price_level_test_insert() {
    let mut price_queue = new_queue();

    const DEFAULT_QTY: u64 = 1;

    let order_1 = create_new_order_request(1, DEFAULT_QTY);
    let order_2 = create_new_order_request(2, DEFAULT_QTY);
    let order_3 = create_new_order_request(3, DEFAULT_QTY);

    price_queue.insert(order_1);

    // Check arena only contains the new order
    assert_eq!(price_queue.arena_len(), 1);
    assert_eq!(price_queue.freelist_len(), 0);

    // Check node references are None
    let node_1_ptr = price_queue.slot_of(1).expect("order 1 not found");

    let node_1 = price_queue.node(node_1_ptr).unwrap();

    assert_eq!(node_1.ro.id, 1);
    assert!(node_1.next.is_none());
    assert!(node_1.prev.is_none());

    // Check head and tail are set
    assert_eq!(
        price_queue.head(),
        Some(price_queue.slot_of(1).expect("Head incorrect"))
    );
    assert_eq!(
        price_queue.tail(),
        Some(price_queue.slot_of(1).expect("Tail incorrect"))
    );

    // Insert another order and check tail is updated and node references are correct
    price_queue.insert(order_2);

    assert_eq!(price_queue.arena_len(), 2);
    assert_eq!(price_queue.freelist_len(), 0);

    let node_2_ptr = price_queue.slot_of(2).unwrap();
    let node_2 = price_queue.node(node_2_ptr).unwrap();
    assert_eq!(node_2.ro.id, 2, "Order ID incorrect");

    // Check node 1 links are correct
    let node_1 = price_queue.node(node_1_ptr).unwrap();
    assert_eq!(node_1.next, Some(node_2_ptr));
    assert!(node_1.prev.is_none());

    // Check node 2 links are correct
    assert_eq!(node_2.next, None, "Order 2 next incorrect");
    assert_eq!(node_2.prev, Some(node_1_ptr), "Order 2 prev incorrect");

    assert_eq!(
        price_queue.head(),
        Some(price_queue.slot_of(1).expect("Head incorrect"))
    );
    assert_eq!(
        price_queue.tail(),
        Some(price_queue.slot_of(2).expect("Tail incorrect"))
    );

    price_queue.insert(order_3);

    assert_eq!(price_queue.arena_len(), 3);
    assert_eq!(price_queue.freelist_len(), 0);

    let node_3_ptr = price_queue.slot_of(3).unwrap();

    let node_3 = price_queue.node(node_3_ptr).unwrap();
    assert_eq!(node_3.ro.id, 3, "Order ID incorrect");

    // Check node 1 links are correct
    let node_1 = price_queue.node(node_1_ptr).unwrap();
    assert_eq!(node_1.next, Some(node_2_ptr));
    assert!(node_1.prev.is_none());

    // Check node 2 links are correct
    let node_2 = price_queue.node(node_2_ptr).unwrap();
    assert_eq!(node_2.next, Some(node_3_ptr), "Order 2 next incorrect");
    assert_eq!(node_2.prev, Some(node_1_ptr), "Order 2 prev incorrect");

    // Check node 3 links are correct
    assert_eq!(node_3.next, None, "Order 3 next incorrect");
    assert_eq!(node_3.prev, Some(node_2_ptr), "Order 3 prev incorrect");

    assert_eq!(
        price_queue.head(),
        Some(price_queue.slot_of(1).expect("Head incorrect"))
    );
    assert_eq!(
        price_queue.tail(),
        Some(price_queue.slot_of(3).expect("Tail incorrect"))
    );
}

#[test]
fn test_freelist_reuse() {
    let mut price_queue = new_queue();

    let order_1 = create_new_order_request(1, 100);
    let order_2 = create_new_order_request(2, 100);
    let order_3 = create_new_order_request(3, 100);

    price_queue.insert(order_1);
    price_queue.insert(order_2);
    price_queue.insert(order_3);

    price_queue.remove(1);

    let order_4 = create_new_order_request(4, 100);
    price_queue.insert(order_4);

    // Check freelist node was used, avoiding a memory-leak
    assert_eq!(price_queue.arena_len(), 3);
    assert_eq!(
        price_queue.freelist_len(),
        0,
        "Freelist not empty, potential memory leak"
    );

    // Check reused node has correct order and pointers
    let node_3_ptr = price_queue.slot_of(3).expect("order 3 not found");
    let node_4_ptr = price_queue.slot_of(4).expect("order 4 not found");
    let node_4 = price_queue.node(node_4_ptr).unwrap();
    assert_eq!(node_4.ro.id, 4, "Order incorrect");

    assert_eq!(node_4.prev, Some(node_3_ptr));
    assert!(node_4.next.is_none());
}

#[test]
fn test_remove() {
    let mut book = new_queue();

    let order_1 = create_new_order_request(1, 100);
    let order_2 = create_new_order_request(2, 100);
    let order_3 = create_new_order_request(3, 100);

    book.insert(order_1);
    book.insert(order_2);
    book.insert(order_3);

    book.remove(1);

    // Check arena only contains the non-cancelled orders
    assert_eq!(book.arena_len(), 2);
    assert_eq!(book.freelist_len(), 1);

    // Check index contains the non-cancelled orders
    assert_eq!(book.index_len(), 2);

    let node_2_ptr = book.slot_of(2).expect("order 2 not found");
    let node_3_ptr = book.slot_of(3).expect("order 3 not found");

    let node_2 = book.node(node_2_ptr).unwrap();
    let node_3 = book.node(node_3_ptr).unwrap();

    assert_eq!(node_2.ro.id, 2);
    assert_eq!(node_3.ro.id, 3);

    assert_eq!(node_2.next, Some(node_3_ptr));
    assert!(node_2.prev.is_none());

    assert!(node_3.next.is_none());
    assert_eq!(node_3.prev, Some(node_2_ptr));

    // Check head and tail are correctly updated
    assert_eq!(book.head(), Some(node_2_ptr));
    assert_eq!(book.tail(), Some(node_3_ptr));
}

#[test]
fn price_level_test_pop_head() {
    let mut book = new_queue();

    let order_1 = create_new_order_request(1, 100);
    let order_2 = create_new_order_request(2, 100);
    let order_3 = create_new_order_request(3, 100);

    assert_eq!(book.pop_head(), CommandResult::Rejected(EmptyPriceLevel));

    book.insert(order_1);
    book.insert(order_2);
    book.insert(order_3);

    book.pop_head();

    // Check arena and freelist sizes
    assert_eq!(book.arena_len(), 2);
    assert_eq!(book.freelist_len(), 1);

    let head_ptr = book.head().unwrap();
    let head_node = book.node(head_ptr).unwrap();
    assert_eq!(head_node.ro.id, 2);
    assert_eq!(head_node.next, Some(book.slot_of(3).unwrap()));
    assert!(head_node.prev.is_none());

    let tail_ptr = book.tail().unwrap();
    let tail_node = book.node(tail_ptr).unwrap();
    assert_eq!(tail_node.ro.id, 3);
    assert!(tail_node.next.is_none());
    assert_eq!(tail_node.prev, Some(book.slot_of(2).unwrap()));
}

#[test]
fn test_update_order() {
    let mut book = new_queue();

    let order_1 = create_new_order_request(1, 100);
    let order_2 = create_new_order_request(2, 100);
    let order_3 = create_new_order_request(3, 100);

    book.insert(order_1);
    book.insert(order_2);
    book.insert(order_3);

    let modified_order_1 = UpdateQtyRequest {
        order_id: 1,
        new_qty: 10,
    };

    book.update_quantity(modified_order_1);

    assert_eq!(book.arena_len(), 3);
    assert_eq!(book.freelist_len(), 0);

    let head_ptr = book.head().unwrap();
    let head_node = book.node(head_ptr).unwrap();
    assert_eq!(
        head_node.ro.id, 1,
        "Head should not change after after update_quantity"
    );

    let tail_ptr = book.tail().unwrap();
    let tail_node = book.node(tail_ptr).unwrap();
    assert_eq!(
        tail_node.ro.id, 3,
        "Tail should not change after after update_quantity"
    );

    let second_node_ptr = head_node.next.unwrap();
    let second_node = book.node(second_node_ptr).unwrap();
    assert_eq!(
        second_node.ro.id, 2,
        "FIFO should not change after after update_quantity"
    );
    assert_eq!(
        second_node.prev,
        Some(head_ptr),
        "Second node prev is incorrect after update_quantity"
    );
    assert_eq!(
        second_node.next,
        Some(tail_ptr),
        "Second node next is incorrect after update_quantity"
    );

    assert_eq!(
        tail_node.prev,
        Some(second_node_ptr),
        "Tail node prev is incorrect after update_quantity"
    );
    assert_eq!(
        tail_node.next, None,
        "Tail node next is incorrect after update_quantity"
    );
}

#[test]
fn test_apply_partial_fill() {
    let mut book = new_queue();

    assert_eq!(
        book.apply_partial_fill(PartialFillRequest { qty_to_fill: 100 })
            .result,
        Rejected(EmptyPriceLevel)
    );

    let order_1 = create_new_order_request(1, 100);

    book.insert(order_1);

    let result = book
        .apply_partial_fill(PartialFillRequest { qty_to_fill: 50 })
        .result;

    if let CommandResult::Filled(FillInfo::Partial(info)) = result {
        assert_eq!(info.order_id, 1);
        assert_eq!(info.filled_qty, 50);
        assert_eq!(info.remaining_qty, 50);
    } else {
        panic!("Expected a partial fill, got {:?}", result);
    }
}

#[test]
fn insert_acknowledges_and_stamps_with_the_clock() {
    let mut book = PriceLevelQueue::new(250, Side::SELL, MockClock { fixed: 77 });
    assert_eq!(book.price(), 250);
    let r = book.insert(create_new_order_request(5, 10));
    assert_eq!(r.result, CommandResult::Acknowledged);
    assert_eq!(r.timestamp_ns, 77);
    let node = book.node(book.slot_of(5).unwrap()).unwrap();
    assert_eq!(node.ro.qty, 10);
    assert_eq!(node.ro.timestamp_ns, 77);
}

#[test]
fn duplicate_id_is_refused_and_changes_nothing() {
    let mut book = new_queue();
    book.insert(create_new_order_request(1, 10));
    let r = book.insert(create_new_order_request(1, 20));
    assert_eq!(r.result, Rejected(DuplicateOrderId));
    assert_eq!(book.arena_len(), 1);
    assert_eq!(book.index_len(), 1);
    let node = book.node(book.slot_of(1).unwrap()).unwrap();
    assert_eq!(node.ro.qty, 10);
}

#[test]
fn unknown_id_is_refused_by_remove_and_update() {
    let mut book = new_queue();
    book.insert(create_new_order_request(1, 10));
    assert_eq!(book.remove(2).result, Rejected(OrderNotFound));
    assert_eq!(
        book.update_quantity(UpdateQtyRequest { order_id: 2, new_qty: 3 })
            .result,
        Rejected(OrderNotFound)
    );
    assert_eq!(book.arena_len(), 1);
    assert_eq!(book.freelist_len(), 0);
}

#[test]
fn remove_reports_the_cancelled_quantity() {
    let mut book = new_queue();
    book.insert(create_new_order_request(1, 10));
    book.insert(create_new_order_request(2, 20));
    book.insert(create_new_order_request(3, 30));
    let r = book.remove(2);
    assert_eq!(
        r.result,
        CommandResult::Removed(RemoveInfo {
            order_id: 2,
            canceled_quantity: 20
        })
    );
    assert_eq!(book.slot_of(2), None);
    assert_eq!(book.index_len(), 2);
}

#[test]
fn update_reports_the_new_quantity() {
    let mut book = new_queue();
    book.insert(create_new_order_request(1, 10));
    let r = book.update_quantity(UpdateQtyRequest {
        order_id: 1,
        new_qty: 4,
    });
    assert_eq!(
        r.result,
        CommandResult::QuantityUpdated(QtyUpdatedInfo {
            order_id: 1,
            new_qty: 4
        })
    );
    assert_eq!(book.node(book.head().unwrap()).unwrap().ro.qty, 4);
}

#[test]
fn pop_head_fills_orders_in_arrival_order() {
    let mut book = new_queue();
    book.insert(create_new_order_request(7, 1));
    book.insert(create_new_order_request(3, 2));
    book.insert(create_new_order_request(5, 3));
    assert_eq!(
        book.pop_head(),
        CommandResult::Filled(FillInfo::Full(FilledInfo {
            order_id: 7,
            filled_qty: 1
        }))
    );
    book.insert(create_new_order_request(9, 4));
    assert_eq!(
        book.pop_head(),
        CommandResult::Filled(FillInfo::Full(FilledInfo {
            order_id: 3,
            filled_qty: 2
        }))
    );
    assert_eq!(
        book.pop_head(),
        CommandResult::Filled(FillInfo::Full(FilledInfo {
            order_id: 5,
            filled_qty: 3
        }))
    );
    assert_eq!(
        book.pop_head(),
        CommandResult::Filled(FillInfo::Full(FilledInfo {
            order_id: 9,
            filled_qty: 4
        }))
    );
    assert_eq!(book.pop_head(), Rejected(EmptyPriceLevel));
    assert_eq!(book.head(), None);
    assert_eq!(book.tail(), None);
}

#[test]
fn remove_right_after_insert_restores_the_queue() {
    let mut book = new_queue();
    book.insert(create_new_order_request(1, 10));
    book.insert(create_new_order_request(2, 20));
    let head = book.head();
    let tail = book.tail();
    book.insert(create_new_order_request(3, 30));
    book.remove(3);
    assert_eq!(book.head(), head);
    assert_eq!(book.tail(), tail);
    assert_eq!(book.arena_len(), 2);
    assert_eq!(book.index_len(), 2);
    let tail_node = book.node(tail.unwrap()).unwrap();
    assert_eq!(tail_node.next, None);
}

#[test]
fn partial_fill_conserves_quantity_and_refuses_full_consumption() {
    let mut book = new_queue();
    book.insert(create_new_order_request(1, 30));
    assert_eq!(
        book.apply_partial_fill(PartialFillRequest { qty_to_fill: 30 })
            .result,
        Rejected(InsufficientQuantity)
    );
    assert_eq!(
        book.apply_partial_fill(PartialFillRequest { qty_to_fill: 45 })
            .result,
        Rejected(InsufficientQuantity)
    );
    let result = book
        .apply_partial_fill(PartialFillRequest { qty_to_fill: 12 })
        .result;
    if let CommandResult::Filled(FillInfo::Partial(info)) = result {
        assert_eq!(info.filled_qty + info.remaining_qty, 30);
        assert_eq!(info.remaining_qty, 18);
    } else {
        panic!("Expected a partial fill, got {:?}", result);
    }
    assert_eq!(book.node(book.head().unwrap()).unwrap().ro.qty, 18);
}

#[test]
fn neighbour_links_mirror_each_other_after_removals() {
    let mut book = new_queue();
    for id in 1..=6 {
        book.insert(create_new_order_request(id, id));
    }
    book.remove(3);
    book.remove(1);
    book.remove(6);
    let mut ids = Vec::new();
    let mut cur = book.head();
    let mut prev = None;
    while let Some(slot) = cur {
        let node = book.node(slot).unwrap();
        assert_eq!(node.prev, prev);
        ids.push(node.ro.id);
        prev = Some(slot);
        cur = node.next;
    }
    assert_eq!(prev, book.tail());
    assert_eq!(ids, vec![2, 4, 5]);
    assert_eq!(book.arena_len() + book.freelist_len(), 6);
}

#[test]
fn queue_runs_on_a_quanta_clock() {
    let mut book = PriceLevelQueue::new(100, Side::BUY, QuantaClock::new());
    let r = book.insert(create_new_order_request(1, 1));
    assert_eq!(r.result, CommandResult::Acknowledged);
    let node = book.node(book.head().unwrap()).unwrap();
    assert_eq!(node.ro.timestamp_ns, r.timestamp_ns);
}

#[test]
fn insert_after_remove_reuses_that_node() {
    let mut book = new_queue();
    book.insert(create_new_order_request(1, 1));
    book.insert(create_new_order_request(2, 1));
    book.insert(create_new_order_request(3, 1));
    let slot_2 = book.slot_of(2).unwrap();
    book.remove(2);
    assert_eq!(book.freelist_len(), 1);
    book.insert(create_new_order_request(8, 1));
    assert_eq!(book.slot_of(8), Some(slot_2));
    assert_eq!(book.freelist_len(), 0);
    assert_eq!(book.arena_len(), 3);
    assert_eq!(book.node(3), None);
    assert_eq!(book.tail(), Some(slot_2));
}

#[test]
fn every_result_is_stamped_by_the_level_clock() {
    let mut book = new_queue();
    assert_eq!(
        book.apply_partial_fill(PartialFillRequest { qty_to_fill: 1 })
            .timestamp_ns,
        123_456_789
    );
    assert_eq!(book.insert(create_new_order_request(1, 100)).timestamp_ns, 123_456_789);
    assert_eq!(book.insert(create_new_order_request(1, 5)).timestamp_ns, 123_456_789);
    assert_eq!(book.remove(9).timestamp_ns, 123_456_789);
    let r = book.apply_partial_fill(PartialFillRequest { qty_to_fill: 50 });
    assert_eq!(r.timestamp_ns, 123_456_789);
    let node = book.node(book.head().unwrap()).unwrap();
    assert_eq!(node.ro.timestamp_ns, 123_456_789);
    assert_eq!(node.ro.qty, 50);
    let u = book.update_quantity(UpdateQtyRequest { order_id: 1, new_qty: 7 });
    assert_eq!(u.timestamp_ns, 123_456_789);
    assert_eq!(book.remove(1).timestamp_ns, 123_456_789);
}
