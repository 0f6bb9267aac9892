use snapcrop::canon::to_canonical;
use snapcrop::parser::generate_values;
use snapcrop::parser::parse_resolutions;
use snapcrop::resset::normalize;
use snapcrop::resset::ConfigError;

#[test]
fn range_expansion_inclusive() {
    assert_eq!(
        generate_values((512, 1024, 64)),
        vec![512u32, 576, 640, 704, 768, 832, 896, 960, 1024]
    );
}

#[test]
fn range_expansion_truncates_at_end() {
    assert_eq!(generate_values((1, 2, 3)), vec![1u32]);
    assert_eq!(generate_values((10, 20, 7)), vec![10u32, 17]);
}

#[test]
fn range_expansion_empty_when_start_past_end() {
    assert_eq!(generate_values((5, 3, 1)), Vec::<u32>::new());
}

#[test]
fn square_range_is_a_cross_product() {
    let pairs = parse_resolutions(b"512:1024:64").unwrap();
    // Nine dimensions crossed with themselves: every width paired with
    // every height, width outer.
    assert_eq!(pairs.len(), 81);
    assert_eq!(pairs[0], (512, 512));
    assert_eq!(pairs[1], (512, 576));
    for d in [512u32, 576, 640, 704, 768, 832, 896, 960, 1024] {
        assert!(pairs.contains(&(d, d)));
    }
}

#[test]
fn bidirectional_emits_both_orientations() {
    let pairs = parse_resolutions(b"[512x768]").unwrap();
    assert_eq!(pairs, vec![(512u32, 768), (768, 512)]);
}

#[test]
fn union_of_scalars_sorts_descending() {
    let pairs = parse_resolutions(b"1024,768,512").unwrap();
    assert_eq!(pairs, vec![(1024u32, 1024), (768, 768), (512, 512)]);
    let set = normalize(&pairs).unwrap();
    assert_eq!(
        set.as_pairs(),
        &vec![(1024u32, 1024), (768, 768), (512, 512)]
    );
}

#[test]
fn range_crossed_with_fixed_height() {
    let pairs = parse_resolutions(b"512:640:64x512").unwrap();
    assert_eq!(pairs, vec![(512u32, 512), (576, 512), (640, 512)]);
}

#[test]
fn whitespace_allowed_after_comma() {
    let pairs = parse_resolutions(b"512, 768").unwrap();
    assert_eq!(pairs, vec![(512u32, 512), (768, 768)]);
}

#[test]
fn combined_expression() {
    let pairs = parse_resolutions(b"[512x768],1024").unwrap();
    assert_eq!(pairs, vec![(512u32, 768), (768, 512), (1024, 1024)]);
}

#[test]
fn zero_step_is_a_parse_error() {
    assert!(parse_resolutions(b"512:1024:0").is_err());
}

#[test]
fn malformed_inputs_are_rejected() {
    assert!(parse_resolutions(b"").is_err());
    assert!(parse_resolutions(b"512:").is_err());
    assert!(parse_resolutions(b"512x").is_err());
    assert!(parse_resolutions(b"[512x768").is_err());
    assert!(parse_resolutions(b"512,,768").is_err());
    assert!(parse_resolutions(b"abc").is_err());
    assert!(parse_resolutions(b"512x768 ").is_err());
}

#[test]
fn overflowing_literal_is_a_parse_error() {
    assert!(parse_resolutions(b"99999999999").is_err());
    assert!(parse_resolutions(b"4294967295").is_ok());
}

#[test]
fn normalize_deduplicates() {
    let pairs = parse_resolutions(b"512,512").unwrap();
    assert_eq!(pairs.len(), 2);
    let set = normalize(&pairs).unwrap();
    assert_eq!(set.as_pairs(), &vec![(512u32, 512)]);
}

#[test]
fn normalize_rejects_empty_list() {
    assert!(matches!(normalize(&vec![]), Err(ConfigError::EmptySet)));
}

#[test]
fn normalize_rejects_zero_dimension() {
    let r = normalize(&vec![(0u32, 512), (512, 512)]);
    assert!(matches!(r, Err(ConfigError::ZeroDimension)));
    let r = normalize(&vec![(512u32, 0)]);
    assert!(matches!(r, Err(ConfigError::ZeroDimension)));
}

#[test]
fn normalize_is_idempotent() {
    let pairs = parse_resolutions(b"[512x768],1024,512").unwrap();
    let once = normalize(&pairs).unwrap();
    let twice = normalize(once.as_pairs()).unwrap();
    assert_eq!(once.as_pairs(), twice.as_pairs());
}

#[test]
fn canonical_form_reparses_to_the_same_set() {
    let pairs = parse_resolutions(b"[512x768],1024,512:640:64").unwrap();
    let set = normalize(&pairs).unwrap();
    let canon = to_canonical(&set);
    let reparsed = parse_resolutions(&canon).unwrap();
    assert_eq!(&reparsed, set.as_pairs());
    let renorm = normalize(&reparsed).unwrap();
    assert_eq!(renorm.as_pairs(), set.as_pairs());
}

#[test]
fn canonical_form_spelling() {
    let set = normalize(&vec![(1024u32, 1024), (1344, 768)]).unwrap();
    let canon = to_canonical(&set);
    assert_eq!(canon, b"1344x768,1024x1024".to_vec());
}
