use qpick::shard::{
    push_decimal, qid2pqid, select_shards, shard_line, split_line, weight_byte, QueryType,
    ShardRangeError,
};

#[test]
fn the_prefixes_of_queries() {
    assert_eq!(QueryType::from("qe".to_string()), QueryType::Q);
    assert_eq!(QueryType::from("q".to_string()), QueryType::Q);
    assert_eq!(QueryType::from("t".to_string()), QueryType::TUW);
    assert_eq!(QueryType::from("u".to_string()), QueryType::TUW);
    assert_eq!(QueryType::from("".to_string()), QueryType::TUW);
    assert_eq!(QueryType::from("Q".to_string()), QueryType::TUW);
}

fn parts(line: &str) -> (String, String) {
    split_line(line)
}

fn p(a: &str, b: &str) -> (String, String) {
    (a.to_string(), b.to_string())
}

#[test]
fn a_line_splits_into_prefix_and_query() {
    assert_eq!(parts("how to fly\t17\t0.5"), p("qe", "how to fly"));
    assert_eq!(parts("q: how to fly \t17"), p("q", "how to fly"));
    assert_eq!(parts("t:some title"), p("t", "some title"));
    // of more than two parts the last is left out
    assert_eq!(parts("q:a : b:c\tx"), p("q", "a b"));
    assert_eq!(parts("q:a:b"), p("q", "a"));
    assert_eq!(parts(""), p("qe", ""));
}

#[test]
fn a_query_number_splits_into_place_and_shard() {
    assert_eq!(qid2pqid(10, 3), (3, 1));
    assert_eq!(qid2pqid(0, 1), (0, 0));
    assert_eq!(qid2pqid(u64::MAX, 2), (u64::MAX / 2, 1));
}

#[test]
fn a_weight_becomes_a_byte_of_hundredths() {
    assert_eq!(weight_byte(1, 3), 33);
    assert_eq!(weight_byte(2, 3), 67);
    assert_eq!(weight_byte(1, 200), 1);
    assert_eq!(weight_byte(1, 201), 0);
    assert_eq!(weight_byte(0, 7), 0);
    assert_eq!(weight_byte(7, 7), 100);
    assert_eq!(weight_byte(138600, 200000), 69);
    assert_eq!(weight_byte(3, 1), 255);
    assert_eq!(weight_byte(255, 100), 255);
}

#[test]
fn a_shard_line_has_four_fields() {
    assert_eq!(shard_line(12, 3, "e01 s01", 45), "12\t3\te01 s01\t45\n");
    assert_eq!(shard_line(0, 0, "", 0), "0\t0\t\t0\n");
    assert_eq!(
        shard_line(u64::MAX, 10, "münchen", 255),
        "18446744073709551615\t10\tmünchen\t255\n"
    );
}

#[test]
fn numbers_are_written_in_decimal() {
    let mut s = String::from("n=");
    push_decimal(&mut s, 1090);
    assert_eq!(s, "n=1090");
    let mut s = String::new();
    push_decimal(&mut s, 7);
    assert_eq!(s, "7");
}

#[test]
fn a_range_of_shards_needs_an_end_behind_its_start() {
    assert_eq!(select_shards(None, None), Ok(None));
    assert_eq!(select_shards(None, Some(4)), Ok(None));
    assert_eq!(select_shards(Some(2), Some(4)), Ok(Some((2, 4))));
    assert_eq!(select_shards(Some(2), None), Err(ShardRangeError::MissingEnd));
    assert_eq!(select_shards(Some(4), Some(4)), Err(ShardRangeError::EndNotAfterStart));
    assert_eq!(select_shards(Some(5), Some(4)), Err(ShardRangeError::EndNotAfterStart));
}
