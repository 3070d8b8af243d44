use telemetry_list::list::ListNode;
use telemetry_list::telemetry::{Point, Telemetry};

fn sample(ts: u64) -> Telemetry {
    Telemetry::new(Point::new((1.5f64).to_bits(), (-2.25f64).to_bits()), ts)
}

fn chain(timestamps: &[u64]) -> ListNode {
    let mut rev = timestamps.to_vec();
    rev.reverse();
    let mut node = ListNode::new(sample(rev[0]));
    for &ts in rev[1..].iter() {
        node = ListNode::new(sample(ts)).with_next(node);
    }
    node
}

fn collect_timestamps(head: ListNode) -> Vec<u64> {
    let mut out = Vec::new();
    let mut cur = Some(Box::new(head));
    while let Some(node) = cur {
        out.push(node.val.time_stamp);
        cur = node.next;
    }
    out
}

#[test]
fn constructors_keep_fields() {
    let point = Point::new(7, 11);
    assert_eq!(point.latitude_bits, 7);
    assert_eq!(point.longitude_bits, 11);

    let sample = Telemetry::new(point, 42);
    assert_eq!(sample.point, point);
    assert_eq!(sample.time_stamp, 42);

    let node = ListNode::new(sample);
    assert_eq!(node.val, sample);
    assert!(node.next.is_none());
}

#[test]
fn with_next_attaches_successor() {
    let tail = ListNode::new(sample(1));
    let head = ListNode::new(sample(2)).with_next(tail);
    assert_eq!(head.val.time_stamp, 2);
    let tail = head.next.unwrap();
    assert_eq!(tail.val.time_stamp, 1);
    assert!(tail.next.is_none());
}

#[test]
fn with_next_replaces_previous_tail() {
    let old_tail = ListNode::new(sample(1));
    let head = ListNode::new(sample(2)).with_next(old_tail);
    let new_tail = ListNode::new(sample(3));
    let head = head.with_next(new_tail);
    assert_eq!(collect_timestamps(head), vec![2, 3]);
}

#[test]
fn all_outside_range_yields_none() {
    let list = chain(&[1000, 900, 800]);
    assert!(list.get_part(1, 700).is_none());
}

#[test]
fn full_range_keeps_all_in_order() {
    let list = chain(&[1000, 900, 800]);
    let part = list.get_part(800, 1000).unwrap();
    assert_eq!(collect_timestamps(part), vec![1000, 900, 800]);
}

#[test]
fn boundary_timestamps_are_included() {
    let list = chain(&[1000, 900, 800, 700]);
    let part = list.get_part(800, 900).unwrap();
    assert_eq!(collect_timestamps(part), vec![900, 800]);
}

#[test]
fn equal_bounds_select_exact_match() {
    let list = chain(&[1000, 900, 800]);
    let part = list.get_part(900, 900).unwrap();
    assert_eq!(collect_timestamps(part), vec![900]);
}

#[test]
fn inverted_bounds_yield_none() {
    let list = chain(&[1000, 900, 800]);
    assert!(list.get_part(900, 800).is_none());
}

#[test]
fn only_qualifying_records_appear() {
    let list = chain(&[500, 50, 400, 20, 300]);
    let part = list.get_part(100, 450).unwrap();
    assert_eq!(collect_timestamps(part), vec![400, 300]);
}

#[test]
fn single_node_in_range() {
    let list = ListNode::new(sample(250));
    let part = list.get_part(200, 300).unwrap();
    assert_eq!(part.val.time_stamp, 250);
    assert!(part.next.is_none());
}

#[test]
fn single_node_out_of_range() {
    let list = ListNode::new(sample(250));
    assert!(list.get_part(300, 400).is_none());
}

#[test]
fn result_is_structural_copy() {
    let list = chain(&[600, 500, 400]);
    let part = list.get_part(450, 650).unwrap();
    let expected = ListNode::new(sample(600)).with_next(ListNode::new(sample(500)));
    assert_eq!(part, expected);
}

#[test]
fn result_carries_coordinates_over() {
    let tail = ListNode::new(Telemetry::new(Point::new(3, 4), 100));
    let head = ListNode::new(Telemetry::new(Point::new(1, 2), 200)).with_next(tail);
    let part = head.get_part(100, 200).unwrap();
    assert_eq!(part.val.point, Point::new(1, 2));
    let part = part.next.unwrap();
    assert_eq!(part.val.point, Point::new(3, 4));
    assert!(part.next.is_none());
}
