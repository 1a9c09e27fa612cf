use dyft::config::{ConfigError, IndexConfig, LshConfig};
use dyft::dyft::MartConfig;
use dyft::id::ID;
use dyft::util::{count_candidates, map_to_trajectory_ids, IndexSize};

struct Curve;

#[test]
fn an_id_is_valid_until_invalidated() {
    let mut id = ID::<Curve>::new(42);
    assert!(id.is_valid());
    assert_eq!(id.value(), 42);
    id.invalidate();
    assert!(!id.is_valid());
    assert_eq!(id.value(), i64::MAX);
    assert!(!ID::<Curve>::invalid().is_valid());
    assert!(ID::<Curve>::new(-1).is_valid());
    let copy = id;
    assert_eq!(copy.value(), id.value());
}

#[test]
fn candidates_are_counted_by_query() {
    let counts = count_candidates(&[(0, 5), (2, 1), (0, 9), (0, 5), (7, 7)]);
    assert_eq!(counts.len(), 3);
    assert_eq!(counts.get(&0), Some(&3));
    assert_eq!(counts.get(&2), Some(&1));
    assert_eq!(counts.get(&7), Some(&1));
    assert_eq!(counts.get(&1), None);
    assert!(count_candidates(&[]).is_empty());
}

#[test]
fn results_become_pairs_of_ids() {
    let dataset = vec![ID::<Curve>::new(0), ID::<Curve>::new(1)];
    let queryset = vec![ID::<Curve>::new(2), ID::<Curve>::new(3)];
    let mapped = map_to_trajectory_ids(&[(0, 1), (1, 0)], &dataset, &queryset);
    let values: Vec<(i64, i64)> = mapped.iter().map(|(q, c)| (q.value(), c.value())).collect();
    assert_eq!(values, vec![(2, 1), (3, 0)]);
    // a result that points outside is left out
    let mapped = map_to_trajectory_ids(&[(2, 0), (0, 0), (0, 2)], &dataset, &queryset);
    let values: Vec<(i64, i64)> = mapped.iter().map(|(q, c)| (q.value(), c.value())).collect();
    assert_eq!(values, vec![(2, 0)]);
}

#[test]
fn settings_are_built_step_by_step() {
    let config = IndexConfig::<MartConfig>::default();
    assert_eq!(config.lsh.k, 2);
    assert_eq!(config.lsh.l, 8);
    assert_eq!(config.index.bits, 8);
    assert_eq!(config.index.splitthreshold, None);
    assert_eq!(config.index.radius, 8);
    assert_eq!(config.index.errors, 8);
    let config = config
        .with_bits(4)
        .with_splitthreshold(100)
        .with_radius(3)
        .with_errors(2)
        .k(6)
        .l(4);
    assert_eq!(config.index_params().bits, 4);
    assert_eq!(config.index_params().splitthreshold, Some(100));
    assert_eq!(config.index_params().radius, 3);
    assert_eq!(config.index_params().errors, 2);
    assert_eq!(config.lsh_params().k, 6);
    assert_eq!(config.lsh_params().l, 4);
    assert_eq!(config.lsh_params().seed, 0);
    let lsh = LshConfig::default();
    assert_eq!((lsh.k, lsh.l, lsh.seed), (2, 8, 0));
}

#[test]
fn errors_are_parsed_up_to_sixteen() {
    assert_eq!(MartConfig::parse_errors("0"), Ok(0));
    assert_eq!(MartConfig::parse_errors("16"), Ok(16));
    assert_eq!(MartConfig::parse_errors("17"), Err(ConfigError::TooManyErrors));
    assert_eq!(MartConfig::parse_errors("255"), Err(ConfigError::TooManyErrors));
    assert_eq!(MartConfig::parse_errors("256"), Err(ConfigError::NotANumber));
    assert_eq!(MartConfig::parse_errors("-1"), Err(ConfigError::NotANumber));
    assert_eq!(MartConfig::parse_errors(""), Err(ConfigError::NotANumber));
    assert_eq!(MartConfig::parse_errors("four"), Err(ConfigError::NotANumber));
    assert_eq!(MartConfig::parse_errors("+5"), Ok(5));
    assert_eq!(MartConfig::parse_errors("0016"), Ok(16));
    assert_eq!(MartConfig::parse_errors("00000000000000000000000000"), Ok(0));
    assert_eq!(MartConfig::parse_errors("+"), Err(ConfigError::NotANumber));
    assert_eq!(MartConfig::parse_errors(" 5"), Err(ConfigError::NotANumber));
    assert_eq!(MartConfig::parse_errors("5 "), Err(ConfigError::NotANumber));
    assert_eq!(MartConfig::parse_errors("99999999999999999999"), Err(ConfigError::NotANumber));
    assert_eq!(MartConfig::parse_errors("1e1"), Err(ConfigError::NotANumber));
}

#[test]
fn index_size_starts_at_nothing() {
    let size = IndexSize::default();
    assert_eq!(size.stack_size, 0);
    assert_eq!(size.heap_size, 0);
}
