use snmp_walk::oid::{oid_strings_to_uint_vecs, oid_uints_to_ary, parse_oid};

#[test]
fn parses_interface_descriptions() {
    assert_eq!(
        parse_oid("1.3.6.1.2.1.2.2.1.2"),
        Some(vec![1, 3, 6, 1, 2, 1, 2, 2, 1, 2])
    );
}

#[test]
fn empty_pieces_are_skipped() {
    assert_eq!(parse_oid(".1.3..6."), Some(vec![1, 3, 6]));
    assert_eq!(parse_oid(""), Some(vec![]));
    assert_eq!(parse_oid("..."), Some(vec![]));
}

#[test]
fn plus_sign_and_leading_zeros() {
    assert_eq!(parse_oid("+5.007"), Some(vec![5, 7]));
    assert_eq!(parse_oid("+"), None);
    assert_eq!(parse_oid("1.+"), None);
    assert_eq!(parse_oid("1.+.2"), None);
    assert_eq!(parse_oid("++1"), None);
    assert_eq!(parse_oid("1+"), None);
}

#[test]
fn refuses_what_is_not_a_u32() {
    assert_eq!(parse_oid("-1"), None);
    assert_eq!(parse_oid("1.a"), None);
    assert_eq!(parse_oid("1.2x.3"), None);
    assert_eq!(parse_oid(" 1"), None);
    assert_eq!(parse_oid("1,3"), None);
    assert_eq!(parse_oid("\u{0661}"), None);
}

#[test]
fn u32_bounds() {
    assert_eq!(parse_oid("4294967295"), Some(vec![u32::MAX]));
    assert_eq!(parse_oid("0.4294967295"), Some(vec![0, u32::MAX]));
    assert_eq!(parse_oid("4294967296"), None);
    assert_eq!(parse_oid("99999999999999999999.1"), None);
}

#[test]
fn agrees_with_str_parse() {
    let cases = [
        "1.3.6.1", "+1.+2", "1..2", "a", "12345678901", "4294967295.0", "+-1", "0", "", ".",
        "00.000", "7.", "1.2.3.4.5.6.7.8.9.10.11.12",
    ];
    for s in cases {
        let expected: Option<Vec<u32>> = s
            .split('.')
            .filter(|z| !z.is_empty())
            .map(|z| z.parse::<u32>().ok())
            .collect();
        assert_eq!(parse_oid(s), expected, "{}", s);
    }
}

#[test]
fn strings_to_uint_vecs() {
    let snmp_oids = ["1.3.6.1.2.1.2.2.1.2".to_owned(), "2.5".to_owned(), "".to_owned()];
    let oids = oid_strings_to_uint_vecs(&snmp_oids);
    assert_eq!(oids, vec![vec![1, 3, 6, 1, 2, 1, 2, 2, 1, 2], vec![2, 5], vec![]]);
    let none: [String; 0] = [];
    assert_eq!(oid_strings_to_uint_vecs(&none), Vec::<Vec<u32>>::new());
}

#[test]
fn uints_to_ary_borrows_each_vector() {
    let oid_vec = vec![vec![1, 3, 6], vec![], vec![2, 5]];
    let oids = oid_uints_to_ary(&oid_vec);
    assert_eq!(oids.len(), 3);
    assert_eq!(oids[0], &[1, 3, 6][..]);
    assert_eq!(oids[1], &[][..]);
    assert_eq!(oids[2], &[2, 5][..]);
    assert!(oid_uints_to_ary(&Vec::new()).is_empty());
}

#[test]
fn joining_with_a_dot_concatenates_arcs() {
    let pairs = [("1.3.6", "1.2"), ("", "5"), ("7", ""), ("1..", ".2"), ("x", "1"), ("1", "+")];
    for (a, b) in pairs {
        let joined = format!("{}.{}", a, b);
        let expected = match (parse_oid(a), parse_oid(b)) {
            (Some(mut p), Some(q)) => {
                p.extend(q);
                Some(p)
            }
            _ => None,
        };
        assert_eq!(parse_oid(&joined), expected, "{}", joined);
    }
    assert_eq!(parse_oid("1.3.6.1.2"), Some(vec![1, 3, 6, 1, 2]));
}

#[test]
fn decimal_rendering_reads_back() {
    let cases: [&[u32]; 5] = [&[], &[0], &[1, 3, 6, 1, 2, 1, 2, 2, 1, 2], &[u32::MAX, 10, 0, 99], &[7, 100000]];
    for v in cases {
        let text = v.iter().map(|x| x.to_string()).collect::<Vec<String>>().join(".");
        assert_eq!(parse_oid(&text), Some(v.to_vec()), "{}", text);
    }
}

#[test]
fn doubled_and_outer_dots_change_nothing() {
    let cases = ["1.3.6.1", "", ".", "1..2", "+4.5", "1.x", "4294967296", "7."];
    for s in cases {
        let t = format!(".{}.", s.replace('.', ".."));
        assert_eq!(parse_oid(&t), parse_oid(s), "{}", t);
    }
    let strings = ["1.3.6".to_owned(), "2..5.".to_owned()];
    let padded: Vec<String> = strings.iter().map(|s| format!(".{}.", s.replace('.', ".."))).collect();
    assert_eq!(oid_strings_to_uint_vecs(&padded), oid_strings_to_uint_vecs(&strings));
}
