use fairshare::rat::Rat;
use fairshare::scores::ScoreSet;
use fairshare::solve;
use fairshare::SolveError;

fn drain(mut set: ScoreSet) -> Vec<(Rat, Vec<u8>)> {
    let mut out = Vec::new();
    while let Some(p) = set.pop() {
        out.push(p);
    }
    out
}

fn rat_is(r: &Rat, num: i64, den: u64) -> bool {
    r.eq_value(&Rat::new(num, den).unwrap())
}

#[test]
fn empty_object_is_parse_error() {
    assert!(matches!(solve("{}"), Err(SolveError::Parse)));
}

#[test]
fn non_json_is_parse_error() {
    assert!(matches!(solve("not json"), Err(SolveError::Parse)));
}

#[test]
fn root_of_wrong_shape_is_parse_error() {
    assert!(matches!(solve("{\"root\": 5}"), Err(SolveError::Parse)));
}

#[test]
fn two_leaves_rank_descending() {
    let set = solve(
        "{\"root\": {\"length\": 0, \"children\": [{\"length\": 2, \"name\": \"A\"}, {\"length\": 4, \"name\": \"B\"}]}}",
    )
    .unwrap();
    let out = drain(set);
    assert_eq!(out.len(), 2);
    assert_eq!(out[0].1, b"B".to_vec());
    assert!(rat_is(&out[0].0, 4, 1));
    assert_eq!(out[1].1, b"A".to_vec());
    assert!(rat_is(&out[1].0, 2, 1));
}

#[test]
fn shared_ancestor_edge_is_split_evenly() {
    let set = solve(
        "{\"root\": {\"length\": 10, \"children\": [{\"name\": \"A\", \"length\": 0}, {\"name\": \"B\", \"length\": 0}]}}",
    )
    .unwrap();
    let out = drain(set);
    assert_eq!(out.len(), 2);
    // equal scores drain tie-broken by name, greater name first
    assert_eq!(out[0].1, b"B".to_vec());
    assert!(rat_is(&out[0].0, 5, 1));
    assert_eq!(out[1].1, b"A".to_vec());
    assert!(rat_is(&out[1].0, 5, 1));
    // the edge's whole length is conserved across its leaves
    let total = out[0].0.add(&out[1].0).unwrap();
    assert!(rat_is(&total, 10, 1));
}

#[test]
fn childless_internal_sibling_does_not_fail() {
    // the childless internal node has no leaves below it, so the root's
    // length is shared by the one actual leaf alone
    let set = solve(
        "{\"root\": {\"length\": 5, \"children\": [{\"name\": \"A\", \"length\": 1}, {\"length\": 3, \"children\": []}]}}",
    )
    .unwrap();
    let out = drain(set);
    assert_eq!(out.len(), 1);
    assert_eq!(out[0].1, b"A".to_vec());
    assert!(rat_is(&out[0].0, 6, 1));
}

#[test]
fn childless_root_yields_empty_ranking() {
    let set = solve("{\"root\": {\"children\": []}}").unwrap();
    assert!(set.is_empty());
}

#[test]
fn solve_is_deterministic_across_runs() {
    let input = "{\"root\": {\"length\": 3, \"children\": [{\"name\": \"x\", \"length\": 1}, {\"name\": \"y\"}, {\"length\": 2, \"children\": [{\"name\": \"z\"}]}]}}";
    let a = drain(solve(input).unwrap());
    let b = drain(solve(input).unwrap());
    assert_eq!(a.len(), b.len());
    for k in 0..a.len() {
        assert!(a[k].0.eq_value(&b[k].0));
        assert_eq!(a[k].1, b[k].1);
    }
}

#[test]
fn equal_scores_drain_by_descending_name() {
    let set = solve(
        "{\"root\": {\"children\": [{\"name\": \"mouse\", \"length\": 1}, {\"name\": \"zebra\", \"length\": 1}, {\"name\": \"ant\", \"length\": 1}]}}",
    )
    .unwrap();
    let out = drain(set);
    assert_eq!(out.len(), 3);
    assert_eq!(out[0].1, b"zebra".to_vec());
    assert_eq!(out[1].1, b"mouse".to_vec());
    assert_eq!(out[2].1, b"ant".to_vec());
}

#[test]
fn fractional_and_exponent_lengths_are_exact() {
    // 1.5e1 = 15 split over two leaves: 7.5 each
    let set = solve(
        "{\"root\": {\"length\": 1.5e1, \"children\": [{\"name\": \"x\"}, {\"name\": \"y\"}]}}",
    )
    .unwrap();
    let out = drain(set);
    assert_eq!(out.len(), 2);
    assert!(rat_is(&out[0].0, 15, 2));
    assert!(rat_is(&out[1].0, 15, 2));
}

#[test]
fn missing_length_defaults_to_zero() {
    let set = solve("{\"root\": {\"children\": [{\"name\": \"only\"}]}}").unwrap();
    let out = drain(set);
    assert_eq!(out.len(), 1);
    assert!(rat_is(&out[0].0, 0, 1));
    assert_eq!(out[0].1, b"only".to_vec());
}

#[test]
fn negative_lengths_propagate_algebraically() {
    let set = solve("{\"root\": {\"children\": [{\"name\": \"n\", \"length\": -2.5}]}}").unwrap();
    let out = drain(set);
    assert_eq!(out.len(), 1);
    assert!(rat_is(&out[0].0, -5, 2));
}

#[test]
fn escapes_in_names_are_decoded() {
    let set = solve(
        "{\"root\": {\"children\": [{\"name\": \"a\\nb\\u0041\", \"length\": 1}]}}",
    )
    .unwrap();
    let out = drain(set);
    assert_eq!(out[0].1, b"a\nbA".to_vec());
}

#[test]
fn unknown_keys_are_skipped() {
    let set = solve(
        "{\"style\": {\"color\": [1, null, {\"deep\": true}]}, \"root\": {\"note\": \"x\", \"children\": [{\"name\": \"A\", \"length\": 3, \"extra\": false}]}}",
    )
    .unwrap();
    let out = drain(set);
    assert_eq!(out.len(), 1);
    assert!(rat_is(&out[0].0, 3, 1));
}

#[test]
fn duplicate_known_key_is_parse_error() {
    let r = solve("{\"root\": {\"length\": 1, \"length\": 2, \"name\": \"A\"}}");
    assert!(matches!(r, Err(SolveError::Parse)));
}

#[test]
fn trailing_text_is_parse_error() {
    let r = solve("{\"root\": {\"name\": \"A\"}} x");
    assert!(matches!(r, Err(SolveError::Parse)));
}

#[test]
fn leading_zero_number_is_parse_error() {
    let r = solve("{\"root\": {\"length\": 01, \"name\": \"A\"}}");
    assert!(matches!(r, Err(SolveError::Parse)));
}

#[test]
fn unrepresentable_length_is_parse_error() {
    let r = solve("{\"root\": {\"length\": 99999999999999999999999999, \"name\": \"A\"}}");
    assert!(matches!(r, Err(SolveError::Parse)));
}

#[test]
fn unrepresentable_score_is_domain_error() {
    // the length itself is representable (denominator 10^19), but dividing
    // it between two leaves needs denominator 2 * 10^19, beyond u64
    let r = solve(
        "{\"root\": {\"length\": 0.0000000000000000001, \"children\": [{\"name\": \"a\"}, {\"name\": \"b\"}]}}",
    );
    assert!(matches!(r, Err(SolveError::Domain)));
}

#[test]
fn error_messages_describe_the_failure() {
    let e = match solve("{}") {
        Err(e) => e,
        Ok(_) => panic!("expected a parse failure"),
    };
    assert_eq!(e.message(), "the input is not a well-formed tree document");
}

#[test]
fn nested_tree_scores_are_exact() {
    // root(len 0) -> [leaf A len 2, node(len 4) -> [leaf B len 1, leaf C len 0]]
    // A = 2; B = 4/2 + 1 = 3; C = 4/2 = 2; drained: B(3), C(2), A(2)
    let set = solve(
        "{\"root\": {\"length\": 0, \"children\": [{\"name\": \"A\", \"length\": 2}, {\"length\": 4, \"children\": [{\"name\": \"B\", \"length\": 1}, {\"name\": \"C\", \"length\": 0}]}]}}",
    )
    .unwrap();
    let out = drain(set);
    assert_eq!(out.len(), 3);
    assert_eq!(out[0].1, b"B".to_vec());
    assert!(rat_is(&out[0].0, 3, 1));
    assert_eq!(out[1].1, b"C".to_vec());
    assert!(rat_is(&out[1].0, 2, 1));
    assert_eq!(out[2].1, b"A".to_vec());
    assert!(rat_is(&out[2].0, 2, 1));
}

#[test]
fn surrogate_pair_names_decode_to_utf8() {
    let set = solve(
        "{\"root\": {\"children\": [{\"name\": \"\\uD83D\\uDE00\", \"length\": 1}]}}",
    )
    .unwrap();
    let out = drain(set);
    assert_eq!(out[0].1, "\u{1F600}".as_bytes().to_vec());
}

#[test]
fn lone_surrogate_is_parse_error() {
    let r = solve("{\"root\": {\"children\": [{\"name\": \"\\uD83D\", \"length\": 1}]}}");
    assert!(matches!(r, Err(SolveError::Parse)));
}

#[test]
fn three_way_split_conserves_the_edge_exactly() {
    // 1 split three ways is 1/3 each; the three shares sum back to exactly 1
    let set = solve(
        "{\"root\": {\"length\": 1, \"children\": [{\"name\": \"p\"}, {\"name\": \"q\"}, {\"name\": \"r\"}]}}",
    )
    .unwrap();
    let out = drain(set);
    assert_eq!(out.len(), 3);
    for p in &out {
        assert!(rat_is(&p.0, 1, 3));
    }
    let total = out[0].0.add(&out[1].0).unwrap().add(&out[2].0).unwrap();
    assert!(rat_is(&total, 1, 1));
}
