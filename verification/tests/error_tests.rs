use string_art::error::ConfigError;

#[test]
fn every_error_has_its_own_message() {
    let all = [
        ConfigError::Side,
        ConfigError::AnchorCount,
        ConfigError::NotMultipleOfFour,
        ConfigError::AnchorOutside,
        ConfigError::AnchorsCoincide,
        ConfigError::AnchorSide,
        ConfigError::StartAnchor,
        ConfigError::TargetSide,
        ConfigError::TargetRange,
        ConfigError::Source,
    ];
    for (k, one) in all.iter().enumerate() {
        assert!(!one.message().is_empty());
        for other in &all[..k] {
            assert_ne!(one.message(), other.message());
        }
    }
}

#[test]
fn messages_name_what_is_wrong() {
    assert_eq!(ConfigError::Side.message(), "the side must be from 2 to 4096 pixels");
    assert_eq!(ConfigError::AnchorCount.message(), "there must be from 2 to 4096 anchors");
    assert_eq!(
        ConfigError::NotMultipleOfFour.message(),
        "anchors on a square must come in a multiple of four"
    );
    assert_eq!(ConfigError::AnchorsCoincide.message(), "two anchors lie on the same point");
}
