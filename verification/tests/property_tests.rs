use core::cmp::Ordering;
use packet_datum::datum::PacketDatum;
use packet_datum::parser::PacketParser;

fn parsed(text: &str) -> PacketDatum {
    text.parse().unwrap()
}

#[test]
fn round_trip_flat_int_list() {
    let datum = PacketDatum::int_list(vec![1, 0, -5, 300, 42]);
    let text = datum.to_text();
    assert_eq!(text, "[1,0,-5,300,42]");
    let back: PacketDatum = text.parse().unwrap();
    assert!(back == datum);
}

#[test]
fn round_trip_extreme_integers() {
    let datum = PacketDatum::int_list(vec![i32::MAX, i32::MIN]);
    let text = datum.to_text();
    assert_eq!(text, "[2147483647,-2147483648]");
    let back: PacketDatum = text.parse().unwrap();
    assert!(back == datum);
}

#[test]
fn round_trip_nested_packet() {
    let datum = parsed("[[1],[2,3,4],[],[[5]],-6]");
    let text = datum.to_text();
    assert_eq!(text, "[[1],[2,3,4],[],[[5]],-6]");
    let back: PacketDatum = text.parse().unwrap();
    assert!(back == datum);
}

#[test]
fn integer_text_has_minus_sign() {
    assert_eq!(PacketDatum::Integer(-42).to_text(), "-42");
    assert_eq!(PacketDatum::Integer(0).to_text(), "0");
    assert_eq!(PacketDatum::Integer(907).to_text(), "907");
}

#[test]
fn compare_is_reflexive_on_samples() {
    let samples = vec![
        parsed("[]"),
        parsed("[1,2,3]"),
        parsed("[[1],[2,3,4]]"),
        parsed("[[[]]]"),
        PacketDatum::Integer(-7),
    ];
    for d in samples.iter() {
        assert_eq!(d.cmp(d), Ordering::Equal);
    }
}

#[test]
fn compare_is_antisymmetric_on_samples() {
    let pairs = vec![
        (parsed("[1,1,3,1,1]"), parsed("[1,1,5,1,1]")),
        (parsed("[[1],[2,3,4]]"), parsed("[[1],4]")),
        (parsed("[9]"), parsed("[[8,7,6]]")),
        (parsed("[[]]"), parsed("[[]]")),
    ];
    for (a, b) in pairs.iter() {
        match a.cmp(b) {
            Ordering::Less => assert_eq!(b.cmp(a), Ordering::Greater),
            Ordering::Equal => assert_eq!(b.cmp(a), Ordering::Equal),
            Ordering::Greater => assert_eq!(b.cmp(a), Ordering::Less),
        }
    }
}

#[test]
fn compare_is_transitive_on_samples() {
    let a = parsed("[1,1,3,1,1]");
    let b = parsed("[1,1,5,1,1]");
    let c = parsed("[2]");
    assert_eq!(a.cmp(&b), Ordering::Less);
    assert_eq!(b.cmp(&c), Ordering::Less);
    assert_eq!(a.cmp(&c), Ordering::Less);
}

#[test]
fn prefix_orders_first() {
    let short = parsed("[1,2]");
    let long = parsed("[1,2,3]");
    assert_eq!(short.cmp(&long), Ordering::Less);
    assert_eq!(long.cmp(&short), Ordering::Greater);
}

#[test]
fn integer_equals_its_singleton_list() {
    let lone = PacketDatum::Integer(5);
    let wrapped = parsed("[5]");
    assert_eq!(lone.cmp(&wrapped), Ordering::Equal);
    assert_eq!(wrapped.cmp(&lone), Ordering::Equal);
    // but they are not structurally equal
    assert!(lone != wrapped);
}

#[test]
fn list_against_integer_compares_as_against_singleton() {
    let children = parsed("[2,3]");
    let four = PacketDatum::Integer(4);
    let four_list = parsed("[4]");
    assert_eq!(children.cmp(&four), children.cmp(&four_list));
}

#[test]
fn empty_list_orders_first() {
    let empty = parsed("[]");
    let other = parsed("[0]");
    assert_eq!(empty.cmp(&other), Ordering::Less);
    assert_eq!(empty.cmp(&parsed("[]")), Ordering::Equal);
}

#[test]
fn malformed_inputs_are_rejected() {
    assert!("".parse::<PacketDatum>().is_err());
    assert!("1,2,3".parse::<PacketDatum>().is_err());
    assert!("[1,2".parse::<PacketDatum>().is_err());
    assert!("[1]]".parse::<PacketDatum>().is_err());
}

#[test]
fn lone_minus_is_rejected() {
    assert!("[-]".parse::<PacketDatum>().is_err());
}

#[test]
fn too_large_integer_is_rejected() {
    assert!("[2147483648]".parse::<PacketDatum>().is_err());
    assert!("[-2147483649]".parse::<PacketDatum>().is_err());
    assert!(
        "[2147483647,-2147483648]".parse::<PacketDatum>().unwrap()
            == PacketDatum::int_list(vec![i32::MAX, i32::MIN])
    );
}

#[test]
fn scenario_pairs_compare_as_expected() {
    let cases = vec![
        ("[1,1,3,1,1]", "[1,1,5,1,1]", Ordering::Less),
        ("[[1],[2,3,4]]", "[[1],4]", Ordering::Less),
        ("[9]", "[[8,7,6]]", Ordering::Greater),
        ("[[4,4],4,4]", "[[4,4],4,4,4]", Ordering::Less),
        ("[7,7,7,7]", "[7,7,7]", Ordering::Greater),
        ("[[[]]]", "[[]]", Ordering::Greater),
        (
            "[1,[2,[3,[4,[5,6,7]]]],8,9]",
            "[1,[2,[3,[4,[5,6,0]]]],8,9]",
            Ordering::Greater,
        ),
    ];
    for (left, right, expected) in cases.iter() {
        assert_eq!(parsed(left).cmp(&parsed(right)), *expected);
    }
}

#[test]
fn whitespace_is_stripped_before_tokens() {
    // whitespace splits nothing: digits on both sides of a blank join
    assert!(parsed("[1 2]") == PacketDatum::int_list(vec![12]));
    assert!(parsed(" [ 1 , 2 ]\n") == PacketDatum::int_list(vec![1, 2]));
}

#[test]
fn unrecognized_characters_are_dropped() {
    assert!(parsed("[a1b2]") == PacketDatum::int_list(vec![1, 2]));
}

#[test]
fn first_packet_wins_over_trailing_text() {
    assert!(parsed("[1][2]") == PacketDatum::int_list(vec![1]));
    assert!("[1][2".parse::<PacketDatum>().is_err());
}

#[test]
fn bare_integer_outside_list_is_rejected() {
    assert!("[1]2".parse::<PacketDatum>().is_err());
    assert!("7".parse::<PacketDatum>().is_err());
}

#[test]
fn tokens_split_brackets_and_numbers() {
    let toks = packet_datum::datum::parser::get_valid_tokens("[1, -22,]x3");
    assert_eq!(toks, vec!["[", "1", "-22", "]", "3"]);
}

#[test]
fn append_to_integer_fails_and_changes_nothing() {
    let mut leaf = PacketDatum::Integer(1);
    assert!(leaf.add_list(PacketDatum::Integer(2)).is_err());
    assert!(leaf == PacketDatum::Integer(1));

    let mut list = PacketDatum::int_list(vec![1]);
    assert!(list.add_list(PacketDatum::Integer(2)).is_ok());
    assert!(list == PacketDatum::int_list(vec![1, 2]));
}

#[test]
fn packet_parser_yields_top_level_datums() {
    let packet: PacketParser = "[[1],2,3]".parse().unwrap();
    assert_eq!(packet.packet.len(), 3);
    assert!(packet.packet[0] == PacketDatum::int_list(vec![1]));
    assert!(packet.packet[1] == PacketDatum::Integer(2));
    assert!(packet.packet[2] == PacketDatum::Integer(3));

    assert!("nonsense".parse::<PacketParser>().is_err());
}
