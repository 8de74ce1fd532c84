use pathmap::paths_serialization::{
    deserialize_paths, deserialize_paths_with_auxdata, serialize_paths, serialize_paths_with_auxdata,
    write_path_record, DeserializationStats, PathsDecoder, SerializationStats,
};
use pathmap::pathmap::PathMap;
use pathmap::zipper_moving::{ZipperIteration, ZipperMoving};

/// The size of the pieces a decompressed stream arrives in.
const PIECE: usize = 2048;

fn unit_path_map_from_paths<P>(paths: impl IntoIterator<Item = P>) -> PathMap<()>
where
    P: AsRef<[u8]>,
{
    let mut btm = PathMap::new();
    for path in paths {
        btm.set_val_at(path.as_ref(), ());
    }
    btm
}

fn deterministic_path(len: usize, mut state: u64) -> Vec<u8> {
    let mut path = Vec::with_capacity(len);
    for _ in 0..len {
        state ^= state << 13;
        state ^= state >> 7;
        state ^= state << 17;
        path.push((state >> 32) as u8);
    }
    path
}

fn count_unit_paths(btm: &PathMap<()>) -> usize {
    let mut count = 0;
    let mut rz = btm.read_zipper();
    while rz.to_next_val() {
        count += 1;
    }
    count
}

fn decode_in_pieces(records: &[u8]) -> (Vec<Vec<u8>>, DeserializationStats) {
    let mut decoder = PathsDecoder::new();
    let mut paths = vec![];
    for piece in records.chunks(PIECE) {
        decoder.feed(piece, &mut paths);
    }
    assert!(decoder.at_boundary());
    let stats = DeserializationStats {
        bytes_in: records.len(),
        bytes_out: records.len(),
        path_count: paths.len(),
    };
    (paths, stats)
}

fn assert_unit_paths_round_trip(btm: &PathMap<()>) -> (SerializationStats, DeserializationStats) {
    let expected_path_count = count_unit_paths(btm);
    let (v, pw) = serialize_paths(&btm.read_zipper()).expect("serialize paths");
    let ser_stats = SerializationStats {
        bytes_out: v.len(),
        bytes_in: v.len(),
        path_count: pw,
    };
    assert_eq!(pw, expected_path_count);
    println!("ser {} {} {}", ser_stats.bytes_out, ser_stats.bytes_in, pw);
    println!("vlen {}", v.len());

    let mut restored_btm = PathMap::new();
    let (paths, de_stats) = decode_in_pieces(&v);
    deserialize_paths(&mut restored_btm.write_zipper(), &paths, ());
    assert_eq!(de_stats.path_count, expected_path_count);
    println!("de {} {} {}", de_stats.bytes_in, de_stats.bytes_out, de_stats.path_count);

    let mut lrz = restored_btm.read_zipper();
    while lrz.to_next_val() {
        assert!(btm.get_val_at(lrz.path()).is_some(), "{:?}", lrz.path());
    }

    let mut rrz = btm.read_zipper();
    while rrz.to_next_val() {
        assert!(restored_btm.get_val_at(rrz.path()).is_some(), "{:?}", rrz.path());
    }

    (ser_stats, de_stats)
}

#[test]
fn path_serialize_deserialize() {
    let rs = [
        "arrow",
        "bow",
        "cannon",
        "roman",
        "romane",
        "romanus",
        "romulus",
        "rubens",
        "ruber",
        "rubicon",
        "rubicundus",
        "rom'i",
    ];
    let btm = unit_path_map_from_paths(rs);
    assert_unit_paths_round_trip(&btm);
}

#[test]
fn path_serialize_deserialize_blow_out_buffer() {
    for zeros in 0..10 {
        println!("{zeros} zeros");
        let mut rs = vec![];
        for i in 0..400 {
            rs.push(format!(
                "{}{}{}{}",
                "0".repeat(zeros),
                i / 100,
                (i / 10) % 10,
                i % 10
            ))
        }
        let btm = unit_path_map_from_paths(rs);
        assert_unit_paths_round_trip(&btm);
    }
}

#[test]
fn path_serialize_deserialize_paths_longer_than_a_piece() {
    let paths = [
        deterministic_path(2049, 0x4d4f_524b_0000_0001),
        deterministic_path(4097, 0x4d4f_524b_0000_0002),
    ];
    let btm = unit_path_map_from_paths(paths.iter().map(Vec::as_slice));

    let (ser_stats, de_stats) = assert_unit_paths_round_trip(&btm);
    assert!(ser_stats.bytes_in > 4096);
    assert!(ser_stats.bytes_out > 4096);
    assert!(de_stats.bytes_out > 4096);
}

#[test]
fn a_record_holds_a_path_far_longer_than_a_piece() {
    let long = deterministic_path(24_000, 0x4d4f_524b_0000_0003);
    let mut records = Vec::new();
    write_path_record(&mut records, &long);
    write_path_record(&mut records, b"after");
    assert_eq!(records.len(), 4 + 24_000 + 4 + 5);
    assert_eq!(&records[..4], &24_000u32.to_le_bytes()[..]);
    let (paths, stats) = decode_in_pieces(&records);
    assert_eq!(stats.path_count, 2);
    assert_eq!(paths[0], long);
    assert_eq!(paths[1], b"after".to_vec());
}

#[test]
fn path_serialize_deserialize_values() {
    let mut btm = PathMap::new();
    let rs = [
        "arrow",
        "bow",
        "cannon",
        "roman",
        "romane",
        "romanus",
        "romulus",
        "rubens",
        "ruber",
        "rubicon",
        "rubicundus",
        "rom'i",
    ];
    rs.iter().enumerate().for_each(|(i, r)| {
        btm.set_val_at(r.as_bytes(), i);
    });
    match serialize_paths_with_auxdata(&btm.read_zipper()) {
        Some((v, values)) => {
            println!("ser {} {}", v.len(), values.len());
            println!("vlen {}", v.len());

            let mut restored_btm = PathMap::new();
            let (paths, stats) = decode_in_pieces(&v);
            assert_eq!(paths.len(), values.len());
            deserialize_paths_with_auxdata(&mut restored_btm.write_zipper(), &paths, &values);
            println!("de {} {} {}", stats.bytes_in, stats.bytes_out, stats.path_count);

            let mut lrz = restored_btm.read_zipper();
            while lrz.to_next_val() {
                assert_eq!(btm.get_val_at(lrz.path()), Some(lrz.val().unwrap()));
            }

            let mut rrz = btm.read_zipper();
            while rrz.to_next_val() {
                assert_eq!(restored_btm.get_val_at(rrz.path()), Some(rrz.val().unwrap()));
            }
        }
        None => panic!("ser e"),
    }
}

#[test]
fn path_record_layout() {
    let mut out = vec![9u8];
    write_path_record(&mut out, b"ab");
    assert_eq!(out, vec![9, 2, 0, 0, 0, b'a', b'b']);
    let mut out = vec![];
    write_path_record(&mut out, b"");
    assert_eq!(out, vec![0, 0, 0, 0]);
    let long = vec![7u8; 300];
    let mut out = vec![];
    write_path_record(&mut out, &long);
    assert_eq!(&out[..4], &[44, 1, 0, 0]);
    assert_eq!(out.len(), 304);
}

#[test]
fn decoder_reads_records_split_anywhere() {
    let mut records = vec![];
    write_path_record(&mut records, b"hello");
    write_path_record(&mut records, b"");
    write_path_record(&mut records, b"xy");
    for cut in 0..=records.len() {
        let mut decoder = PathsDecoder::new();
        let mut paths = vec![];
        decoder.feed(&records[..cut], &mut paths);
        decoder.feed(&records[cut..], &mut paths);
        assert!(decoder.at_boundary());
        assert_eq!(paths, vec![b"hello".to_vec(), vec![], b"xy".to_vec()]);
    }
    let mut decoder = PathsDecoder::new();
    let mut paths = vec![];
    decoder.feed(&records[..7], &mut paths);
    assert_eq!(paths, vec![] as Vec<Vec<u8>>);
    assert!(!decoder.at_boundary());
}

#[test]
fn serialized_paths_leave_out_the_focus_value_and_come_in_order() {
    let mut btm: PathMap<u64> = PathMap::new();
    btm.set_val_at(b"", 1);
    btm.set_val_at(b"b", 2);
    btm.set_val_at(b"a", 3);
    btm.set_val_at(b"ab", 4);
    let (bytes, values) = serialize_paths_with_auxdata(&btm.read_zipper()).unwrap();
    let mut expected = vec![];
    write_path_record(&mut expected, b"a");
    write_path_record(&mut expected, b"ab");
    write_path_record(&mut expected, b"b");
    assert_eq!(bytes, expected);
    assert_eq!(values, vec![3, 4, 2]);
    let mut rz = btm.read_zipper();
    rz.descend_to(b"a");
    let (bytes, count) = serialize_paths(&rz).unwrap();
    let mut expected = vec![];
    write_path_record(&mut expected, b"ab");
    write_path_record(&mut expected, b"b");
    assert_eq!(bytes, expected);
    assert_eq!(count, 2);
    rz.descend_to(b"b");
    let (bytes, values) = serialize_paths_with_auxdata(&rz).unwrap();
    let mut expected = vec![];
    write_path_record(&mut expected, b"b");
    assert_eq!(bytes, expected);
    assert_eq!(values, vec![2]);
}
