use btree::record::Record;

#[test]
fn key_is_the_polynomial_of_the_payload() {
    let r = Record::new([1, 2, 3, 4, 5], 2);
    assert_eq!(r.key, 1 + 2 * 2 + 3 * 4 + 4 * 8 + 5 * 16);
    assert_eq!(r.a, [1, 2, 3, 4, 5]);
    assert_eq!(r.x, 2);
    assert_eq!(Record::new([7, 0, 0, 0, 0], 123).key, 7);
    assert_eq!(Record::new([0, 0, 0, 0, 0], 5).key, 0);
    assert_eq!(Record::new([0, 1, 0, 0, 0], -9).key, -9);
}

#[test]
fn key_wraps_on_overflow() {
    let r = Record::new([i32::MAX, 1, 0, 0, 0], 1);
    assert_eq!(r.key, i32::MIN);
    let r = Record::new([0, 0, 0, 0, 1], 65536);
    assert_eq!(r.key, 0);
    let r = Record::new([0, 0, 1, 0, 0], 65536);
    assert_eq!(r.key, 0);
    let r = Record::new([0, 0, 1, 0, 0], 46341);
    assert_eq!(r.key, 46341i32.wrapping_mul(46341));
}

#[test]
fn fields_are_the_seven_components_key_first() {
    let r = Record::from_fields([42, 1, 2, 3, 4, 5, 6]);
    assert_eq!(r, Record { key: 42, a: [1, 2, 3, 4, 5], x: 6 });
    assert_eq!(r.to_fields(), [42, 1, 2, 3, 4, 5, 6]);
}

#[test]
fn random_record_has_the_key_of_its_payload() {
    let mut distinct = std::collections::BTreeSet::new();
    for _ in 0..50 {
        let r = Record::random();
        assert_eq!(r, Record::new(r.a, r.x));
        distinct.insert(r.to_fields());
    }
    assert!(distinct.len() > 1);
}

#[test]
fn text_is_the_seven_components_in_decimal() {
    assert_eq!(Record::from_fields([42, 1, 2, 3, 4, 5, 6]).to_text(), "42,1,2,3,4,5,6");
    assert_eq!(Record::from_fields([0, 0, 0, 0, 0, 0, 0]).to_text(), "0,0,0,0,0,0,0");
    assert_eq!(
        Record::from_fields([i32::MIN, -1, 10, 109, 1000000, -70, i32::MAX]).to_text(),
        "-2147483648,-1,10,109,1000000,-70,2147483647"
    );
}

#[test]
fn text_is_read_back() {
    assert_eq!(
        Record::from_text("42,1,2,3,4,5,6"),
        Some(Record::from_fields([42, 1, 2, 3, 4, 5, 6]))
    );
    assert_eq!(
        Record::from_text("-2147483648,+7,007,-0,0,2147483647,-12"),
        Some(Record::from_fields([i32::MIN, 7, 7, 0, 0, i32::MAX, -12]))
    );
    assert_eq!(
        Record::from_text("1,2,3,4,5,6,7,8,9"),
        Some(Record::from_fields([1, 2, 3, 4, 5, 6, 7]))
    );
    for _ in 0..100 {
        let r = Record::random();
        assert_eq!(Record::from_text(&r.to_text()), Some(r));
    }
}

#[test]
fn malformed_text_is_refused() {
    for text in [
        "",
        "1,2,3,4,5,6",
        "1,2,3,4,5,6,",
        ",1,2,3,4,5,6",
        "1,2,3,,5,6,7",
        "1,2,3,4,5,6,x",
        "1,2,3,4,5,6,7,x",
        "1, 2,3,4,5,6,7",
        "1,2,3,4,5,6,7 ",
        "1,2,3,4,5,6,-",
        "1,2,3,4,5,6,+",
        "1,2,3,4,5,6,--7",
        "1,2,3,4,5,6,7-",
        "1,2,3,4,5,6,2147483648",
        "1,2,3,4,5,6,-2147483649",
        "1,2,3,4,5,6,99999999999999999999999",
        "1,2,3,4,5,6,1.5",
        "1;2;3;4;5;6;7",
        "1,2,3,4,5,6,\u{0667}",
    ] {
        assert_eq!(Record::from_text(text), None, "{:?}", text);
    }
}
