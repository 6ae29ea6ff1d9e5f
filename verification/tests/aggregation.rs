use vs_average::aggregate::AggregationMode;
use vs_average::aggregate::CategoryLabel;
use vs_average::aggregate::Weights;
use vs_average::aggregate::aggregate;
use vs_average::aggregate::median;
use vs_average::aggregate::plain_mean;
use vs_average::aggregate::resolve_mode;
use vs_average::aggregate::trimmed_mean;
use vs_average::aggregate::validate_mode;
use vs_average::aggregate::weighted_mean;
use vs_average::select::select;
use vs_average::select::sort_values;
use vs_average::CoreError;

fn labels_of(codes: &[u8]) -> Vec<CategoryLabel> {
    codes.iter().map(|&c| CategoryLabel::from_code(c)).collect()
}

fn unknown_labels(n: usize) -> Vec<CategoryLabel> {
    vec![CategoryLabel::Unknown; n]
}

#[test]
fn plain_mean_of_three() {
    let values: Vec<u64> = vec![10, 20, 30];
    assert_eq!(plain_mean(&values), 20);
}

#[test]
fn plain_mean_truncates_toward_zero() {
    let values: Vec<u64> = vec![1, 2];
    assert_eq!(plain_mean(&values), 1);
}

#[test]
fn weighted_mean_of_three_categories() {
    // (10*2 + 20*1 + 30*1) / (2 + 1 + 1) = 70 / 4, truncated to 17 in the
    // integer domain.
    let values: Vec<u64> = vec![10, 20, 30];
    let labels = labels_of(b"IPB");
    let w = Weights { w_i: 2000, w_p: 1000, w_b: 1000 };
    assert_eq!(weighted_mean(&values, &labels, w), Ok(17));
}

#[test]
fn weighted_mean_exact_quotient() {
    // (10*3 + 30*1) / (3 + 1) = 60 / 4 = 15 exactly.
    let values: Vec<u64> = vec![10, 30];
    let labels = labels_of(b"IP");
    let w = Weights { w_i: 3000, w_p: 1000, w_b: 1000 };
    assert_eq!(weighted_mean(&values, &labels, w), Ok(15));
}

#[test]
fn weighted_mean_all_zero_weights_is_degenerate() {
    let values: Vec<u64> = vec![10, 20];
    let labels = labels_of(b"IP");
    let w = Weights { w_i: 0, w_p: 0, w_b: 0 };
    assert_eq!(weighted_mean(&values, &labels, w), Err(CoreError::DegenerateAggregate));
}

#[test]
fn weighted_mean_unknown_label_always_weighs_one_unit() {
    // An unknown source keeps weight 1.0 even under an all-zero triple.
    let values: Vec<u64> = vec![10, 20];
    let labels = labels_of(b"IU");
    let w = Weights { w_i: 0, w_p: 0, w_b: 0 };
    // Only the unknown source counts: (10*0 + 20*1000) / 1000 = 20.
    assert_eq!(weighted_mean(&values, &labels, w), Ok(20));
}

#[test]
fn trimmed_mean_discards_extremes() {
    let mut values: Vec<u64> = vec![5, 100, 10, 20, 90];
    // Removes one max (100) and one min (5); mean of [10, 20, 90] is 40.
    assert_eq!(trimmed_mean(&mut values, 1), 40);
}

#[test]
fn trimmed_mean_discard_zero_is_plain_mean() {
    let mut values: Vec<u64> = vec![10, 20, 30];
    assert_eq!(trimmed_mean(&mut values, 0), 20);
}

#[test]
fn median_odd_count() {
    let mut values: Vec<u64> = vec![3, 1, 2];
    assert_eq!(median(&mut values), 2);
}

#[test]
fn median_even_count_truncates() {
    // (2 + 3) / 2 truncates to 2 in the integer domain.
    let mut values: Vec<u64> = vec![4, 2, 3, 1];
    assert_eq!(median(&mut values), 2);
}

#[test]
fn aggregate_dispatches_all_modes() {
    let labels = labels_of(b"IPB");
    let mut values: Vec<u64> = vec![10, 20, 30];
    assert_eq!(aggregate(&AggregationMode::Plain, &mut values, &labels), Ok(20));
    let mut values: Vec<u64> = vec![10, 20, 30];
    let w = Weights { w_i: 1000, w_p: 1000, w_b: 1000 };
    assert_eq!(aggregate(&AggregationMode::Weighted(w), &mut values, &labels), Ok(20));
    let mut values: Vec<u64> = vec![10, 20, 30];
    assert_eq!(aggregate(&AggregationMode::Trimmed { discard: 1 }, &mut values, &labels), Ok(20));
    let mut values: Vec<u64> = vec![10, 20, 30];
    assert_eq!(aggregate(&AggregationMode::Median, &mut values, &labels), Ok(20));
}

#[test]
fn single_source_every_mode_returns_the_value() {
    let labels = unknown_labels(1);
    let mut values: Vec<u64> = vec![42];
    assert_eq!(aggregate(&AggregationMode::Plain, &mut values, &labels), Ok(42));
    let mut values: Vec<u64> = vec![42];
    let w = Weights { w_i: 1820, w_p: 1300, w_b: 1000 };
    assert_eq!(aggregate(&AggregationMode::Weighted(w), &mut values, &labels), Ok(42));
    let mut values: Vec<u64> = vec![42];
    assert_eq!(aggregate(&AggregationMode::Trimmed { discard: 0 }, &mut values, &labels), Ok(42));
    let mut values: Vec<u64> = vec![42];
    assert_eq!(aggregate(&AggregationMode::Median, &mut values, &labels), Ok(42));
}

#[test]
fn single_source_rejects_positive_discard() {
    // 2 * 1 >= 1, so one source cannot be trimmed.
    assert_eq!(
        validate_mode(&AggregationMode::Trimmed { discard: 1 }, 1),
        Err(CoreError::InvalidModeParameters)
    );
}

#[test]
fn validate_mode_rejects_out_of_range_discard() {
    // 2 * discard >= source count is rejected before any write occurs.
    assert_eq!(
        validate_mode(&AggregationMode::Trimmed { discard: 2 }, 4),
        Err(CoreError::InvalidModeParameters)
    );
    assert_eq!(
        validate_mode(&AggregationMode::Trimmed { discard: 3 }, 5),
        Err(CoreError::InvalidModeParameters)
    );
    assert!(validate_mode(&AggregationMode::Trimmed { discard: 2 }, 5).is_ok());
    assert!(validate_mode(&AggregationMode::Trimmed { discard: 0 }, 1).is_ok());
}

#[test]
fn validate_mode_rejects_empty_source_set() {
    assert_eq!(
        validate_mode(&AggregationMode::Plain, 0),
        Err(CoreError::InvalidModeParameters)
    );
}

#[test]
fn resolve_mode_rejects_weighting_and_trimming_together() {
    assert_eq!(
        resolve_mode(Some(1), Some(1), 8),
        Err(CoreError::InvalidModeParameters)
    );
}

#[test]
fn resolve_mode_rejects_bad_requests() {
    // Negative trim count.
    assert_eq!(resolve_mode(None, Some(-1), 8), Err(CoreError::InvalidModeParameters));
    // Trim count at or past half the sources.
    assert_eq!(resolve_mode(None, Some(4), 8), Err(CoreError::InvalidModeParameters));
    // Unknown preset.
    assert_eq!(resolve_mode(Some(4), None, 8), Err(CoreError::InvalidModeParameters));
}

#[test]
fn resolve_mode_accepts_documented_requests() {
    assert_eq!(resolve_mode(None, None, 8), Ok(AggregationMode::Plain));
    assert_eq!(resolve_mode(Some(0), Some(0), 8), Ok(AggregationMode::Plain));
    assert_eq!(
        resolve_mode(Some(1), None, 8),
        Ok(AggregationMode::Weighted(Weights { w_i: 1820, w_p: 1300, w_b: 1000 }))
    );
    assert_eq!(
        resolve_mode(Some(2), None, 8),
        Ok(AggregationMode::Weighted(Weights { w_i: 1210, w_p: 1100, w_b: 1000 }))
    );
    assert_eq!(
        resolve_mode(Some(3), None, 8),
        Ok(AggregationMode::Weighted(Weights { w_i: 1100, w_p: 1000, w_b: 1000 }))
    );
    assert_eq!(resolve_mode(None, Some(3), 8), Ok(AggregationMode::Trimmed { discard: 3 }));
}

#[test]
fn category_labels_from_classification_bytes() {
    assert_eq!(CategoryLabel::from_code(b'I'), CategoryLabel::I);
    assert_eq!(CategoryLabel::from_code(b'i'), CategoryLabel::I);
    assert_eq!(CategoryLabel::from_code(b'P'), CategoryLabel::P);
    assert_eq!(CategoryLabel::from_code(b'p'), CategoryLabel::P);
    assert_eq!(CategoryLabel::from_code(b'B'), CategoryLabel::B);
    // Lower-case 'b' and anything unrecognized fall back to Unknown.
    assert_eq!(CategoryLabel::from_code(b'b'), CategoryLabel::Unknown);
    assert_eq!(CategoryLabel::from_code(b'U'), CategoryLabel::Unknown);
    assert_eq!(CategoryLabel::from_code(0), CategoryLabel::Unknown);
}

#[test]
fn select_partitions_head_and_tail() {
    let samples: Vec<u64> = vec![12, 7, 3, 19, 3, 42, 0, 8, 25, 7, 14, 1];
    for k in 0..=samples.len() / 2 {
        let mut buf = samples.clone();
        select(&mut buf, k);
        assert_eq!(buf.len(), samples.len());

        let mut sorted_all = samples.clone();
        sort_values(&mut sorted_all);

        // The whole buffer still holds the same samples.
        let mut resorted = buf.clone();
        sort_values(&mut resorted);
        assert_eq!(resorted, sorted_all);

        // The tail holds exactly the k largest, as a multiset.
        let mut tail: Vec<u64> = buf[buf.len() - k..].to_vec();
        sort_values(&mut tail);
        assert_eq!(tail, sorted_all[sorted_all.len() - k..].to_vec());

        // The head holds exactly the k smallest, as a multiset.
        let mut head: Vec<u64> = buf[..k].to_vec();
        sort_values(&mut head);
        assert_eq!(head, sorted_all[..k].to_vec());
    }
}

#[test]
fn sort_values_orders_ascending() {
    let mut buf: Vec<u64> = vec![9, 1, 8, 1, 7, 0];
    sort_values(&mut buf);
    assert_eq!(buf, vec![0, 1, 1, 7, 8, 9]);
}
