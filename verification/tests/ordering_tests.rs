use packet_datum::datum::PacketDatum;
use packet_datum::datum::PacketDatum as pd;

fn nested_list(inside_list: Vec<i32>) -> PacketDatum {
    let five_six_seven = pd::int_list(inside_list);
    let mut four = pd::int_list(vec![4]);
    four.add_list(five_six_seven).unwrap();
    let mut three = pd::int_list(vec![3]);
    three.add_list(four).unwrap();
    let mut two = pd::int_list(vec![2]);
    two.add_list(three).unwrap();
    let mut one = pd::int_list(vec![1]);
    one.add_list(two).unwrap();
    one.add_list(PacketDatum::Integer(8)).unwrap();
    one.add_list(PacketDatum::Integer(9)).unwrap();
    one
}

#[test]
fn empty_packet_comparison() {
    let packet_1: Vec<PacketDatum> = vec![];
    let packet_2: Vec<PacketDatum> = vec![];

    assert!(packet_1 == packet_2);
}

#[test]
fn packet_datum_new_list() {
    let packet_1 = vec![PacketDatum::int_list(vec![8, 7, 6])];

    let packet_2 = vec![PacketDatum::int_list(vec![8, 7, 6])];

    assert!(packet_1 == packet_2);
}

// packet 1: [1,1,3,1,1]
// packet 2: [1,1,5,1,1]
// packet 1 < packet 2
#[test]
fn same_length_packets_less_than_comparison() {
    let packet_1 = pd::int_list(vec![1, 1, 3, 1, 1]);
    let packet_2 = pd::int_list(vec![1, 1, 5, 1, 1]);

    assert!(packet_1 < packet_2);
}

// packet 1: [1,1,5,1,1]
// packet 2: [1,1,3,1,1]
// packet 1 > packet 2
#[test]
fn same_length_packets_greater_than_comparison() {
    let packet_1 = pd::int_list(vec![1, 1, 5, 1, 1]);

    let packet_2 = pd::int_list(vec![1, 1, 3, 1, 1]);

    assert!(packet_1 > packet_2);
}

// packet 1: [1,1,3,1,1]
// packet 2: [1,1,3,1,1]
// packet 1 == packet 2
#[test]
fn same_length_packets_equal_comparison() {
    let packet_1 = pd::int_list(vec![1, 1, 3, 1, 1]);

    let packet_2 = pd::int_list(vec![1, 1, 3, 1, 1]);

    assert!(packet_1 == packet_2);
}

// packet 1: [1,1,3,1,1]
// packet 2: [1,1,5]
// packet 1 < packet 2
#[test]
fn longer_packet_less_than_shorter_packet_comparison() {
    let packet_1 = pd::int_list(vec![1, 1, 3, 1, 1]);
    let packet_2 = pd::int_list(vec![1, 1, 5]);

    assert!(packet_1 < packet_2);
}

// packet 1: [1,1,3]
// packet 2: [1,1,3,1,1]
// packet 1 < packet 2
#[test]
fn prefix_packet_less_than_comparison() {
    let packet_1 = pd::int_list(vec![1, 1, 3]);
    let packet_2 = pd::int_list(vec![1, 1, 3, 1, 1]);

    assert!(packet_1 < packet_2);
}

// packet 1: [[1],[2,3,4]] as [List, List]
// packet 2: [[1],[2,4,4]] as [List, List]
// packet 1 < packet 2
#[test]
fn tests_same_length_packets_less_than_comparison() {
    let packet_1 = vec![pd::int_list(vec![1]), pd::int_list(vec![2, 3, 4])];

    let packet_2 = vec![pd::int_list(vec![1]), pd::int_list(vec![2, 4, 4])];

    assert!(packet_1 < packet_2);
}

// packet 1: [[5]]
// packet 2: [[8,7,6]]
// packet 1 < packet 2
#[test]
fn shorter_length_packet_less_than_longer_length_packet_comparison() {
    let packet_1 = vec![pd::int_list(vec![5])];

    let packet_2 = vec![pd::int_list(vec![8, 7, 6])];

    assert!(packet_1 < packet_2);
}

// packet 1: [[9]]
// packet 2: [[8,7,6]]
// packet 1 > packet 2
#[test]
fn shorter_length_packet_greater_than_longer_length_packet_comparison() {
    let packet_1 = vec![pd::int_list(vec![9])];

    let packet_2 = vec![pd::int_list(vec![8, 7, 6])];
    assert!(packet_1 > packet_2);
}

// packet 1: [9]
// packet 2: [[8,7,6]]
// packet 1 > packet 2
#[test]
fn int_greater_than_list() {
    let packet_1 = vec![pd::Integer(9)];
    let packet_2 = vec![pd::int_list(vec![8, 7, 6])];

    assert!(packet_1 > packet_2);
}

// packet 1: [5]
// packet 2: [[8,7,6]]
// packet 1 < packet 2
#[test]
fn int_less_than_list() {
    let packet_1 = vec![pd::Integer(5)];
    let packet_2 = vec![pd::int_list(vec![8, 7, 6])];

    assert!(packet_1 < packet_2);
}

// packet 1: [[8,7,6]]
// packet 2: [10]
// packet 1 < packet 2
#[test]
fn list_less_than_int() {
    let packet_1 = vec![pd::int_list(vec![8, 7, 6])];
    let packet_2 = vec![pd::Integer(10)];

    assert!(packet_1 < packet_2);
}

// packet 1: [[8,7,6]]
// packet 2: [5]
// packet 1 > packet 2
#[test]
fn list_greater_than_int() {
    let packet_1 = vec![pd::int_list(vec![8, 7, 6])];
    let packet_2 = vec![pd::Integer(5)];

    assert!(packet_1 > packet_2);
}

// [[1],[2,3,4]] vs [[1],4]
// left side smaller
#[test]
fn pair_2() {
    let packet_1 = vec![pd::int_list(vec![1]), pd::int_list(vec![2, 3, 4])];

    let packet_2 = vec![pd::int_list(vec![1]), PacketDatum::Integer(4)];

    assert!(packet_1 < packet_2);
}

// [9] vs [[8,7,6]]
// Right side is smaller, so inputs are not in the right order
#[test]
fn pair_3() {
    let packet_1 = vec![pd::Integer(9)];
    let packet_2 = vec![pd::int_list(vec![8, 7, 6])];

    assert!(packet_1 > packet_2)
}

// [[4,4],4,4] vs [[4,4],4,4,4]
// Left side ran out of items, so inputs are in the right order
#[test]
fn pair_4() {
    let packet_1 = vec![pd::int_list(vec![4, 4]), pd::Integer(4), pd::Integer(4)];
    let packet_2 = vec![
        pd::int_list(vec![4, 4]),
        pd::Integer(4),
        pd::Integer(4),
        pd::Integer(4),
    ];

    assert!(packet_1 < packet_2);
}

// [7,7,7,7] vs [7,7,7]
// Right side ran out of items, so inputs are not in the right order
#[test]
fn pair_5() {
    let packet_1 = vec![
        pd::Integer(7),
        pd::Integer(7),
        pd::Integer(7),
        pd::Integer(7),
    ];
    let packet_2 = vec![pd::Integer(7), pd::Integer(7), pd::Integer(7)];

    assert!(packet_1 > packet_2);
}

// [] vs [3]
// Left side ran out of items, so inputs are in the right order
#[test]
fn pair_6() {
    let packet_1: Vec<PacketDatum> = vec![];
    let packet_2 = vec![pd::Integer(3)];

    assert!(packet_1 < packet_2);
}

// [[[]]] vs [[]]
// Right side ran out of items, so inputs are not in the right order
#[test]
fn pair_7() {
    let mut list_of_list = pd::int_list(vec![]);
    list_of_list.add_list(pd::int_list(vec![])).unwrap();

    let packet_1: Vec<PacketDatum> = vec![list_of_list];
    let packet_2 = vec![pd::int_list(vec![])];

    assert!(packet_1 > packet_2);
}

// [1,[2,[3,[4,[5,6,7]]]],8,9] vs [1,[2,[3,[4,[5,6,0]]]],8,9]
// Right side is smaller, so inputs are not in the right order
#[test]
fn pair_8() {
    let packet_1 = vec![nested_list(vec![5, 6, 7])];
    let packet_2 = vec![nested_list(vec![5, 6, 0])];

    assert!(packet_1 > packet_2);
}
