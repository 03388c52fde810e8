use packet_datum::datum::PacketDatum;

fn nested_list(inside_list: Vec<i32>) -> PacketDatum {
    let five_six_seven = PacketDatum::int_list(inside_list);
    let mut four = PacketDatum::int_list(vec![4]);
    four.add_list(five_six_seven).unwrap();
    let mut three = PacketDatum::int_list(vec![3]);
    three.add_list(four).unwrap();
    let mut two = PacketDatum::int_list(vec![2]);
    two.add_list(three).unwrap();
    let mut one = PacketDatum::int_list(vec![1]);
    one.add_list(two).unwrap();
    one.add_list(PacketDatum::Integer(8)).unwrap();
    one.add_list(PacketDatum::Integer(9)).unwrap();
    one
}

#[test]
fn all_ints() {
    let parsed_list: PacketDatum = "[1,2,3]".parse().unwrap();

    let expected_list = PacketDatum::int_list(vec![1, 2, 3]);

    assert!(parsed_list == expected_list);
}

#[test]
fn negative_ints() {
    let parsed_list: PacketDatum = "[1,-220,3]".parse().unwrap();

    let expected_list = PacketDatum::int_list(vec![1, -220, 3]);

    assert!(parsed_list == expected_list);
}

#[test]
fn ex_1() {
    let parsed_list: PacketDatum = "[1,1,3,1,1]".parse().unwrap();
    let expected_list = PacketDatum::int_list(vec![1, 1, 3, 1, 1]);

    assert!(parsed_list == expected_list);
}

#[test]
// [[1],[2,3,4]]
// [[1],4]
fn ex_2() {
    let parsed_list_1: PacketDatum = "[[1],[2,3,4]]".parse().unwrap();
    let expected_list_1 = PacketDatum::list(vec![
        PacketDatum::rc_i_list(vec![1]),
        PacketDatum::rc_i_list(vec![2, 3, 4]),
    ]);

    assert!(parsed_list_1 == expected_list_1);

    let parsed_list_2: PacketDatum = "[[1],4]".parse().unwrap();
    let expected_list_2 =
        PacketDatum::list(vec![PacketDatum::rc_i_list(vec![1]), PacketDatum::rc_int(4)]);

    assert!(parsed_list_2 == expected_list_2);
}

#[test]
// []
// [3]
fn ex_6() {
    let parsed_list_1: PacketDatum = "[]".parse().unwrap();
    let expected_list_1 = PacketDatum::List(vec![]);
    assert!(parsed_list_1 == expected_list_1);

    let parsed_list_2: PacketDatum = "[3]".parse().unwrap();
    let expected_list_2 = PacketDatum::list(vec![PacketDatum::rc_int(3)]);
    assert!(parsed_list_2 == expected_list_2);
}

#[test]
// List 1: [[]]
// List 2: [[[]]]
// Right side ran out of items, so inputs are not in the right order
fn ex_7() {
    let parsed_list_1: PacketDatum = "[[]]".parse().unwrap();
    let expected_list_1 = PacketDatum::list(vec![PacketDatum::rc_i_list(vec![])]);
    assert!(parsed_list_1 == expected_list_1);

    let parsed_list_2: PacketDatum = "[[[]]]".parse().unwrap();
    let mut expected_list_2 = PacketDatum::List(vec![]);
    expected_list_2.add_list(expected_list_1).unwrap();

    assert!(parsed_list_2 == expected_list_2);

    assert!(parsed_list_1 < parsed_list_2);
}

#[test]
// [1,[2,[3,[4,[5,6,7]]]],8,9]
// [1,[2,[3,[4,[5,6,0]]]],8,9]
fn ex_8() {
    let parsed_list_1: PacketDatum = "[1,[2,[3,[4,[5,6,7]]]],8,9]".parse().unwrap();
    let expected_list_1 = nested_list(vec![5, 6, 7]);
    assert!(parsed_list_1 == expected_list_1);

    let parsed_list_2: PacketDatum = "[1,[2,[3,[4,[5,6,0]]]],8,9]".parse().unwrap();
    let expected_list_2 = nested_list(vec![5, 6, 0]);
    assert!(parsed_list_2 == expected_list_2);
}
