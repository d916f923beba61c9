use logdrain::builtin_masks::uuid;
use logdrain::error::LogdrainError;
use logdrain::options::{MinerBuilder, Options, Ratio};

#[test]
fn defaults_match_spec() {
    let o = Options::default();
    assert_eq!(o.sim_threshold, Ratio::new(2, 5));
    assert_eq!(o.depth, 4);
    assert_eq!(o.max_clusters, None);
    assert_eq!(o.max_clusters_per_leaf, 100);
    assert!(o.parametrize_numeric_tokens);
    assert_eq!(o.wildcard.as_str(), "<*>");
}

#[test]
fn builder_overrides_and_builds() {
    let o = MinerBuilder::new()
        .sim_threshold(Ratio::new(3, 5))
        .depth(5)
        .max_clusters(Some(10_000))
        .max_clusters_per_leaf(50)
        .parametrize_numeric_tokens(false)
        .wildcard("<?>")
        .build_options()
        .unwrap();
    assert_eq!(o.sim_threshold, Ratio::new(3, 5));
    assert_eq!(o.depth, 5);
    assert_eq!(o.max_clusters, Some(10_000));
    assert_eq!(o.max_clusters_per_leaf, 50);
    assert!(!o.parametrize_numeric_tokens);
    assert_eq!(o.wildcard.as_str(), "<?>");
}

#[test]
fn rejects_depth_below_two() {
    let err = MinerBuilder::new().depth(1).build_options().unwrap_err();
    assert!(matches!(err, LogdrainError::InvalidConfig(_)));
}

#[test]
fn rejects_threshold_out_of_range() {
    assert!(MinerBuilder::new().sim_threshold(Ratio::new(3, 2)).build_options().is_err());
    assert!(MinerBuilder::new().sim_threshold(Ratio::new(-1, 10)).build_options().is_err());
}

#[test]
fn rejects_zero_per_leaf() {
    assert!(MinerBuilder::new().max_clusters_per_leaf(0).build_options().is_err());
}

#[test]
fn v0_2_defaults_are_off() {
    let o = Options::default();
    assert!(o.path_delimiters.is_empty());
    assert!(o.first_line_path_delimiters.is_empty());
    assert!(!o.first_line_only);
    assert!(o.masks.is_empty());
}

#[test]
fn builder_sets_v0_2_fields() {
    let o = MinerBuilder::new()
        .path_delimiters(&['/'])
        .first_line_path_delimiters(&['/', ':'])
        .first_line_only(true)
        .masks(vec![uuid()])
        .build_options()
        .unwrap();
    assert_eq!(o.path_delimiters, vec!['/']);
    assert_eq!(o.first_line_path_delimiters, vec!['/', ':']);
    assert!(o.first_line_only);
    assert_eq!(o.masks.len(), 1);
}

#[test]
fn active_delimiters_prefer_first_line_when_enabled() {
    // first_line_only + non-empty first-line set -> first-line set.
    let o = MinerBuilder::new()
        .path_delimiters(&['/'])
        .first_line_path_delimiters(&[':'])
        .first_line_only(true)
        .build_options()
        .unwrap();
    assert_eq!(o.active_path_delimiters(), &[':']);

    // first_line_only but empty first-line set -> fall back to path_delimiters.
    let o2 = MinerBuilder::new().path_delimiters(&['/']).first_line_only(true).build_options().unwrap();
    assert_eq!(o2.active_path_delimiters(), &['/']);

    // not first_line_only -> path_delimiters regardless.
    let o3 = MinerBuilder::new()
        .path_delimiters(&['/'])
        .first_line_path_delimiters(&[':'])
        .build_options()
        .unwrap();
    assert_eq!(o3.active_path_delimiters(), &['/']);
}

fn config_message(b: MinerBuilder) -> String {
    match b.build_options() {
        Err(LogdrainError::InvalidConfig(m)) => m,
        other => panic!("expected an invalid-config error, got {:?}", other.map(|_| ())),
    }
}

#[test]
fn invalid_config_messages_name_the_value() {
    assert_eq!(config_message(MinerBuilder::new().depth(1)), "depth must be >= 2, got 1");
    assert_eq!(
        config_message(MinerBuilder::new().sim_threshold(Ratio::new(-1, 10))),
        "sim_threshold must be in [0.0, 1.0], got -1/10"
    );
    assert_eq!(
        config_message(MinerBuilder::new().sim_threshold(Ratio::new(1, 0))),
        "sim_threshold must be in [0.0, 1.0], got 1/0"
    );
    assert_eq!(
        config_message(MinerBuilder::new().max_clusters_per_leaf(0)),
        "max_clusters_per_leaf must be >= 1"
    );
}

#[test]
fn prefix_len_is_depth_minus_two() {
    let o = MinerBuilder::new().depth(6).build_options().unwrap();
    assert_eq!(o.prefix_len(), 4);
}
