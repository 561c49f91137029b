use btree_cursor::errors::StorageError;
use btree_cursor::order::{order_records, order_row_ids, order_values, Relation, SeekOp};
use btree_cursor::record::{as_unsigned, read_record, OwnedRecord, OwnedValue};
use btree_cursor::varint::{read_varint, write_varint_to_vec};

fn text(s: &str) -> OwnedValue {
    OwnedValue::Text(s.as_bytes().to_vec())
}

fn float(f: f64) -> OwnedValue {
    OwnedValue::Real(f.to_bits())
}

fn serialized(values: Vec<OwnedValue>) -> Vec<u8> {
    let mut buf = Vec::new();
    OwnedRecord { values }.serialize(&mut buf);
    buf
}

fn varint(v: u64) -> Vec<u8> {
    let mut buf = Vec::new();
    write_varint_to_vec(v, &mut buf);
    buf
}

#[test]
fn varints_have_their_bytes() {
    assert_eq!(varint(0), vec![0]);
    assert_eq!(varint(127), vec![0x7f]);
    assert_eq!(varint(128), vec![0x81, 0]);
    assert_eq!(varint(300), vec![0x82, 0x2c]);
    assert_eq!(varint(16384), vec![0x81, 0x80, 0]);
    assert_eq!(varint(u64::MAX), vec![0xff; 9]);
    assert_eq!(varint(0x00ff_ffff_ffff_ffff), vec![0xff, 0xff, 0xff, 0xff, 0xff, 0xff, 0xff, 0x7f]);
}

#[test]
fn varints_are_read_back() {
    for v in [0u64, 1, 127, 128, 255, 16383, 16384, 1 << 35, (1 << 56) - 1, 1 << 56, u64::MAX] {
        let mut buf = vec![9u8, 9];
        write_varint_to_vec(v, &mut buf);
        let len = buf.len() - 2;
        buf.push(0xff);
        assert_eq!(read_varint(&buf, 2), Some((v, len)));
    }
}

#[test]
fn a_varint_that_runs_past_the_end_is_none() {
    assert_eq!(read_varint(&[], 0), None);
    assert_eq!(read_varint(&[0x80, 0x80], 0), None);
    assert_eq!(read_varint(&[1], 1), None);
}

#[test]
fn a_record_has_its_bytes() {
    let bytes = serialized(vec![OwnedValue::Integer(1), text("ab"), OwnedValue::Null]);
    assert_eq!(bytes, vec![4, 6, 17, 0, 0, 0, 0, 0, 0, 0, 0, 1, b'a', b'b']);
    let bytes = serialized(vec![OwnedValue::Blob(vec![7, 8, 9]), float(1.0)]);
    assert_eq!(bytes, vec![3, 18, 7, 7, 8, 9, 0x3f, 0xf0, 0, 0, 0, 0, 0, 0]);
    assert_eq!(serialized(vec![]), vec![1]);
}

#[test]
fn a_header_counts_the_bytes_of_its_own_length() {
    for (n, length) in [
        (126, vec![0x7f]),
        (127, vec![0x81, 0x01]),
        (16381, vec![0xff, 0x7f]),
        (16382, vec![0x81, 0x80, 0x01]),
        (2097148, vec![0xff, 0xff, 0x7f]),
        (2097149, vec![0x81, 0x80, 0x80, 0x01]),
    ] {
        let mut values = Vec::new();
        for _ in 0..n {
            values.push(OwnedValue::Null);
        }
        let bytes = serialized(values);
        assert_eq!(bytes.len(), n + length.len());
        assert!(bytes.starts_with(&length));
        match read_record(&bytes) {
            Ok(back) => assert_eq!(back.values.len(), n),
            Err(_) => panic!("not read"),
        }
    }
}

#[test]
fn a_record_is_read_back() {
    let values = vec![
        OwnedValue::Null,
        OwnedValue::Integer(-5),
        OwnedValue::Integer(i64::MIN),
        float(-0.25),
        text("grape"),
        OwnedValue::Blob(vec![1; 300]),
    ];
    let record = OwnedRecord { values };
    let mut bytes = Vec::new();
    record.serialize(&mut bytes);
    let back = match read_record(&bytes) {
        Ok(r) => r,
        Err(_) => panic!("not read"),
    };
    assert_eq!(back.values.len(), 6);
    assert_eq!(order_records(&record, &back), Relation::Equal);
    assert!(matches!(back.values[1], OwnedValue::Integer(-5)));
    assert!(matches!(&back.values[4], OwnedValue::Text(t) if t == b"grape"));
}

#[test]
fn short_integers_are_read() {
    let bytes = [7u8, 1, 2, 3, 5, 8, 9, 0xff, 0x01, 0x00, 0xff, 0xff, 0xfe, 0, 0, 0, 0, 0, 7];
    let back = match read_record(&bytes) {
        Ok(r) => r,
        Err(_) => panic!("not read"),
    };
    let ints: Vec<i64> = back
        .values
        .iter()
        .map(|v| match v {
            OwnedValue::Integer(i) => *i,
            _ => panic!("not an integer"),
        })
        .collect();
    assert_eq!(ints, vec![-1, 256, -2, 7, 0, 1]);
}

#[test]
fn bytes_that_are_no_record_are_refused() {
    for bytes in [vec![], vec![0u8], vec![9, 1], vec![2, 10], vec![2, 6, 1], vec![2, 0x81]] {
        assert!(matches!(read_record(&bytes), Err(StorageError::CorruptRecord)));
    }
}

#[test]
fn values_are_ordered_by_type_and_value() {
    let ascending = [
        OwnedValue::Null,
        float(f64::NEG_INFINITY),
        OwnedValue::Integer(i64::MIN),
        float(-1.5),
        OwnedValue::Integer(-1),
        OwnedValue::Integer(0),
        float(0.5),
        OwnedValue::Integer(1),
        float(1.5),
        OwnedValue::Integer(i64::MAX),
        float(9223372036854775808.0),
        text(""),
        text("a"),
        text("ab"),
        text("b"),
        OwnedValue::Blob(vec![]),
        OwnedValue::Blob(vec![0]),
        OwnedValue::Blob(vec![255]),
    ];
    for i in 0..ascending.len() {
        for j in 0..ascending.len() {
            let want = if i < j {
                Relation::Less
            } else if i == j {
                Relation::Equal
            } else {
                Relation::Greater
            };
            assert_eq!(order_values(&ascending[i], &ascending[j]), want, "{} {}", i, j);
        }
    }
}

#[test]
fn an_integer_and_a_real_may_be_equal() {
    assert_eq!(order_values(&OwnedValue::Integer(3), &float(3.0)), Relation::Equal);
    assert_eq!(order_values(&float(-0.0), &OwnedValue::Integer(0)), Relation::Equal);
    assert_eq!(order_values(&float(0.0), &float(-0.0)), Relation::Equal);
    let big = 9007199254740993;
    assert_eq!(order_values(&OwnedValue::Integer(big), &float(9007199254740992.0)), Relation::Greater);
}

#[test]
fn a_shorter_record_stands_before_those_that_go_on() {
    let a = OwnedRecord { values: vec![OwnedValue::Integer(1)] };
    let b = OwnedRecord { values: vec![OwnedValue::Integer(1), OwnedValue::Null] };
    let c = OwnedRecord { values: vec![OwnedValue::Integer(2)] };
    assert_eq!(order_records(&a, &b), Relation::Less);
    assert_eq!(order_records(&b, &a), Relation::Greater);
    assert_eq!(order_records(&b, &c), Relation::Less);
    assert_eq!(order_records(&a, &c), Relation::Less);
    assert_eq!(order_records(&c, &c), Relation::Equal);
}

#[test]
fn a_search_asks_for_its_relation() {
    assert!(SeekOp::GT.is_met(Relation::Greater) && !SeekOp::GT.is_met(Relation::Equal));
    assert!(SeekOp::GE.is_met(Relation::Equal) && !SeekOp::GE.is_met(Relation::Less));
    assert!(SeekOp::EQ.is_met(Relation::Equal) && !SeekOp::EQ.is_met(Relation::Greater));
    assert!(SeekOp::EQ.goes_left(Relation::Greater) && !SeekOp::EQ.goes_left(Relation::Less));
    assert!(SeekOp::GT.goes_left(Relation::Greater) && !SeekOp::GT.goes_left(Relation::Equal));
    assert!(SeekOp::GE.goes_left(Relation::Equal) && !SeekOp::GE.goes_left(Relation::Less));
}

#[test]
fn row_ids_are_unsigned() {
    assert_eq!(as_unsigned(-1), u64::MAX);
    assert_eq!(as_unsigned(7), 7);
    assert_eq!(order_row_ids(as_unsigned(-1), 7), Relation::Greater);
}
