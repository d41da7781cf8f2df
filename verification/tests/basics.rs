use concurrency::waker_table::WakerTable;
use concurrency::basics::{
    add, add_3times, add_val, app_n, get_full_stomach, get_gold, is_even, let_example,
    lifetime_add, mul, mul2, mul_val, mul_x, my_func4, pred, Apple, Foo,
};
use concurrency::hello::{Hello, HelloPoll};
use concurrency::kvserver::{DbReply, DbRequest, KvServer};
use concurrency::stack::StackBad;

#[test]
fn arithmetic_examples() {
    assert_eq!(let_example(), 2108);
    assert_eq!(add(10, 5), 15);
    assert!(is_even(10));
    assert!(!is_even(7));
    assert_eq!(pred(0), None);
    assert_eq!(pred(5), Some(4));
    let mut x = 10u64;
    mul(&mut x, &20);
    assert_eq!(x, 2000);
    assert_eq!(mul2(21), 42);
    assert_eq!(app_n(mul2, 4, 3), 48);
    assert_eq!(app_n(mul2, 0, 3), 3);
    let f = mul_x(3);
    assert_eq!(f(5), 15);
    assert_eq!(add_3times(10), 30);
}

#[test]
fn ownership_examples() {
    let _g = get_gold(Apple {});
    let _s = get_full_stomach(Apple {});
    my_func4();
    let x = Foo { val: 10 };
    let y = Foo { val: 20 };
    assert_eq!(lifetime_add(&x, &y), 30);
    let (a, xn, yn) = add_val(x, y);
    let (b, _, _) = mul_val(xn, yn);
    assert_eq!(a, 30);
    assert_eq!(b, 200);
}

#[test]
fn hello_prints_two_lines_then_completes() {
    let mut h = Hello::new();
    assert_eq!(h.poll(), HelloPoll::Pending("Hello, "));
    assert_eq!(h.poll(), HelloPoll::Pending("World!"));
    assert_eq!(h.poll(), HelloPoll::Ready);
    assert_eq!(h.poll(), HelloPoll::Ready);
}

#[test]
fn kv_server_session() {
    let mut s = KvServer::new();
    assert_eq!(s.handle(DbRequest::Put(10, 4)), DbReply::Stored);
    assert_eq!(s.handle(DbRequest::Put(50, 7)), DbReply::Stored);
    assert_eq!(s.handle(DbRequest::Get(10)), DbReply::Value(Some(4)));
    assert_eq!(s.handle(DbRequest::Get(20)), DbReply::Value(None));
    assert_eq!(s.handle(DbRequest::Put(10, 9)), DbReply::Stored);
    assert_eq!(s.handle(DbRequest::Get(10)), DbReply::Value(Some(9)));
    assert_eq!(s.handle(DbRequest::Get(50)), DbReply::Value(Some(7)));
    assert_eq!(s.handle(DbRequest::Quit), DbReply::Closed);
}

#[test]
fn stack_is_last_in_first_out() {
    let mut s = StackBad::new();
    assert_eq!(s.pop(), None);
    s.push(1);
    s.push(2);
    s.push(3);
    assert_eq!(s.len(), 3);
    assert_eq!(s.pop(), Some(3));
    assert_eq!(s.pop(), Some(2));
    s.push(4);
    assert_eq!(s.pop(), Some(4));
    assert_eq!(s.pop(), Some(1));
    assert_eq!(s.pop(), None);
}

#[test]
fn waker_table_hands_out_each_waker_once() {
    let mut t: WakerTable<&str> = WakerTable::new();
    assert!(!t.contains(3));
    t.register(3, "reader");
    t.register(4, "listener");
    assert!(t.contains(3));
    assert_eq!(t.take_ready(3), "reader");
    assert!(!t.contains(3));
    t.unregister(4);
    assert!(!t.contains(4));
    t.unregister(9);
    t.register(3, "again");
    assert_eq!(t.take_ready(3), "again");
}
