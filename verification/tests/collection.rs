use open_match_rs::collection::OrderNodeLinkedList;
use open_match_rs::order_book::{Order, Side};
use std::time::{SystemTime, UNIX_EPOCH};

fn now_as_nanos() -> u64 {
    SystemTime::now()
        .duration_since(UNIX_EPOCH)
        .expect("Time went backwards")
        .as_nanos() as u64
}

fn buy_order(id: u64) -> Order {
    Order {
        id,
        price: 100,
        quantity: 1,
        side: Side::BUY,
        timestamp_ns: now_as_nanos(),
    }
}

#[test]
fn collection_test_insert() {
    let mut book = OrderNodeLinkedList::new();

    let order_1 = buy_order(1);
    let order_2 = buy_order(2);

    book.insert(order_1);
    book.insert(order_2);

    // Check arena contains both orders
    assert_eq!(book.arena_len(), 2);
    assert_eq!(book.freelist_len(), 0);

    // Check index contains both IDs
    let node_1_ptr = book.slot_of(1).expect("order 1 not found");
    let node_2_ptr = book.slot_of(2).expect("order 2 not found");

    // Check correct order in list (order_1 → order_2)
    let node_1 = book.node(node_1_ptr).unwrap();
    let node_2 = book.node(node_2_ptr).unwrap();

    assert_eq!(node_1.order.id, 1);
    assert_eq!(node_2.order.id, 2);

    assert_eq!(node_1.next, Some(node_2_ptr));
    assert_eq!(node_2.prev, Some(node_1_ptr));
    assert!(node_2.next.is_none());
    assert!(node_1.prev.is_none());

    // Check head and tail are correctly updated
    assert_eq!(book.head(), Some(node_1_ptr));
    assert_eq!(book.tail(), Some(node_2_ptr));
}

#[test]
fn test_cancel() {
    let mut book = OrderNodeLinkedList::new();

    book.insert(buy_order(1));
    book.insert(buy_order(2));
    book.insert(buy_order(3));

    book.cancel(1);

    // Check arena only contains the non-cancelled orders
    assert_eq!(book.arena_len(), 2);
    assert_eq!(book.freelist_len(), 1);

    // Check index contains the non-cancelled orders
    let node_2_ptr = book.slot_of(2).expect("order 2 not found");
    let node_3_ptr = book.slot_of(3).expect("order 3 not found");

    let node_2 = book.node(node_2_ptr).unwrap();
    let node_3 = book.node(node_3_ptr).unwrap();

    assert_eq!(node_2.order.id, 2);
    assert_eq!(node_3.order.id, 3);

    assert_eq!(node_2.next, Some(node_3_ptr));
    assert!(node_2.prev.is_none());

    assert!(node_3.next.is_none());
    assert_eq!(node_3.prev, Some(node_2_ptr));

    // Check head and tail are correctly updated
    assert_eq!(book.head(), Some(node_2_ptr));
    assert_eq!(book.tail(), Some(node_3_ptr));
}

#[test]
fn collection_test_pop_head() {
    let mut book = OrderNodeLinkedList::new();

    book.insert(buy_order(1));
    book.insert(buy_order(2));
    book.insert(buy_order(3));

    assert_eq!(book.freelist_len(), 0);
    book.pop_head();

    // Check arena and freelist sizes
    assert_eq!(book.arena_len(), 2);
    assert_eq!(book.freelist_len(), 1);
}

#[test]
fn collection_cancel_returns_the_order_and_unknown_ids_change_nothing() {
    let mut book = OrderNodeLinkedList::new();
    let order_1 = buy_order(1);
    let order_2 = buy_order(2);
    book.insert(order_1);
    book.insert(order_2);

    assert_eq!(book.cancel(9), None);
    assert_eq!(book.arena_len(), 2);
    assert_eq!(book.freelist_len(), 0);

    assert_eq!(book.cancel(2), Some(order_2));
    assert_eq!(book.cancel(2), None);
    assert_eq!(book.slot_of(2), None);
    assert_eq!(book.head(), book.tail());
}

#[test]
fn collection_pop_head_returns_orders_in_arrival_order() {
    let mut book = OrderNodeLinkedList::new();
    assert_eq!(book.pop_head(), None);
    let order_1 = buy_order(1);
    let order_2 = buy_order(2);
    let order_3 = buy_order(3);
    book.insert(order_1);
    book.insert(order_2);
    book.insert(order_3);
    assert_eq!(book.pop_head(), Some(order_1));
    assert_eq!(book.pop_head(), Some(order_2));
    assert_eq!(book.pop_head(), Some(order_3));
    assert_eq!(book.pop_head(), None);
    assert_eq!(book.head(), None);
    assert_eq!(book.tail(), None);
    assert_eq!(book.freelist_len(), 3);
}

#[test]
fn collection_insert_reuses_recycled_nodes() {
    let mut book = OrderNodeLinkedList::new();
    book.insert(buy_order(1));
    book.insert(buy_order(2));
    let slot_1 = book.slot_of(1).unwrap();
    book.cancel(1);
    book.insert(buy_order(4));
    assert_eq!(book.slot_of(4), Some(slot_1));
    assert_eq!(book.arena_len(), 2);
    assert_eq!(book.freelist_len(), 0);
    assert_eq!(book.node(5), None);
}

#[test]
fn collection_cancel_right_after_insert_restores_the_list() {
    let mut book = OrderNodeLinkedList::new();
    let order_1 = buy_order(1);
    let order_2 = buy_order(2);
    book.insert(order_1);
    book.insert(order_2);
    let head = book.head();
    let tail = book.tail();
    let order_7 = buy_order(7);
    book.insert(order_7);
    assert_eq!(book.cancel(7), Some(order_7));
    assert_eq!(book.head(), head);
    assert_eq!(book.tail(), tail);
    assert_eq!(book.pop_head(), Some(order_1));
    assert_eq!(book.pop_head(), Some(order_2));
    assert_eq!(book.pop_head(), None);
}

#[test]
fn collection_reinserted_id_is_indexed_at_its_newest_order() {
    let mut book = OrderNodeLinkedList::new();
    let first = buy_order(1);
    let mut second = buy_order(1);
    second.quantity = 5;
    book.insert(first);
    book.insert(second);
    // the index follows the newer order; the older one stays in the list
    assert_eq!(book.cancel(1), Some(second));
    assert_eq!(book.cancel(1), None);
    assert_eq!(book.arena_len(), 1);
    assert_eq!(book.pop_head(), Some(first));
}
