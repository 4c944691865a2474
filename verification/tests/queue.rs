use bcounter::queue::{take_due, Timed};

fn item(due: u64, what: char) -> Timed<char> {
    Timed { due, what }
}

#[test]
fn what_is_due_comes_out_in_order_and_the_rest_stays_in_order() {
    let mut queue = vec![item(3, 'a'), item(1, 'b'), item(5, 'c'), item(2, 'd'), item(4, 'e')];
    let due: Vec<Timed<char>> = take_due(&mut queue, 3).into_iter().collect();
    assert_eq!(due, vec![item(3, 'a'), item(1, 'b'), item(2, 'd')]);
    assert_eq!(queue, vec![item(5, 'c'), item(4, 'e')]);
}

#[test]
fn nothing_is_due_before_its_time() {
    let mut queue = vec![item(3, 'a')];
    assert!(take_due(&mut queue, 2).is_empty());
    assert_eq!(queue.len(), 1);
    assert_eq!(take_due(&mut queue, 3).len(), 1);
    assert!(queue.is_empty());
    assert!(take_due(&mut queue, u64::MAX).is_empty());
}
