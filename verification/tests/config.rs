use block_codec::config::{Config, ConfigError};

fn arguments(words: &[&str]) -> Vec<String> {
    words.iter().map(|w| w.to_string()).collect()
}

#[test]
fn path_and_coefficient_are_read() {
    let config = Config::new(&arguments(&["program", "picture.rgb", "4096"])).unwrap();
    assert_eq!(config.path, "picture.rgb");
    assert_eq!(config.coefficient, 4096);
}

#[test]
fn negative_coefficient_is_read() {
    let config = Config::new(&arguments(&["program", "17", "-1", "more"])).unwrap();
    assert_eq!(config.path, "17");
    assert_eq!(config.coefficient, -1);
}

#[test]
fn missing_arguments_are_told_apart() {
    assert!(matches!(Config::new(&arguments(&[])), Err(ConfigError::MissingPath)));
    assert!(matches!(Config::new(&arguments(&["program"])), Err(ConfigError::MissingPath)));
    assert!(matches!(
        Config::new(&arguments(&["program", "picture.rgb"])),
        Err(ConfigError::MissingCoefficient)
    ));
}

#[test]
fn a_coefficient_that_is_no_number_is_refused() {
    for word in ["", "twelve", "12.5", " 12", "99999999999999999999999999"] {
        assert!(matches!(
            Config::new(&arguments(&["program", "picture.rgb", word])),
            Err(ConfigError::InvalidCoefficient)
        ));
    }
}

#[test]
fn errors_in_words() {
    assert_eq!(ConfigError::MissingPath.message(), "Didn't get a path");
    assert_eq!(ConfigError::MissingCoefficient.message(), "Didn't get a coefficient");
    assert_eq!(ConfigError::InvalidCoefficient.message(), "not a valid number");
}

#[test]
fn configuration_from_a_read_coefficient() {
    let config = Config::with_coefficient("a".to_string(), Some(3)).unwrap();
    assert_eq!(config.path, "a");
    assert_eq!(config.coefficient, 3);
    assert!(matches!(
        Config::with_coefficient("a".to_string(), None),
        Err(ConfigError::InvalidCoefficient)
    ));
}
