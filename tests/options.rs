use rsimg::number::{parse_percentage, parse_u32, Percentage};
use rsimg::options::{
    config_from_options, filter_from_name, parse_options, parse_raw_options, parse_size,
    ConfigError, FilterKind, ResizeConfig, ResizeMode,
};

#[test]
fn absolute_size_with_nearest_filter() {
    let config = parse_options("size=200x100,filter=nearest").unwrap();
    assert_eq!(
        config,
        ResizeConfig {
            mode: ResizeMode::AbsoluteSize { width: 200, height: 100 },
            filter: FilterKind::Nearest,
        }
    );
}

#[test]
fn percentage_with_default_filter() {
    let config = parse_options("size=50%").unwrap();
    assert_eq!(
        config,
        ResizeConfig {
            mode: ResizeMode::ScaleFactor { percent: Percentage { digits: 50, frac_len: 0 } },
            filter: FilterKind::Cubic,
        }
    );
    if let ResizeMode::ScaleFactor { percent } = config.mode {
        let scale = percent.digits as f64 / 10f64.powi(percent.frac_len as i32) / 100.0;
        assert_eq!(scale, 0.5);
    }
}

#[test]
fn option_without_equals_is_malformed() {
    assert_eq!(
        parse_options("size").unwrap_err(),
        ConfigError::MalformedOption { option: "size".to_string() }
    );
}

#[test]
fn malformed_items() {
    for raw in ["size=", "=10x10", "size=10x10,", "size=1=2", "size=10x10,,filter=linear", ""] {
        assert!(
            matches!(parse_options(raw), Err(ConfigError::MalformedOption { .. })),
            "{raw}"
        );
    }
    assert_eq!(
        parse_options("size=10x10,filter").unwrap_err(),
        ConfigError::MalformedOption { option: "filter".to_string() }
    );
}

#[test]
fn missing_size() {
    assert_eq!(parse_options("filter=linear").unwrap_err(), ConfigError::MissingSize);
    assert_eq!(parse_options("width=10").unwrap_err(), ConfigError::MissingSize);
}

#[test]
fn size_of_other_form_fails() {
    for value in ["abc", "10", "10x20x30", "10y20", "50", "1x2%", "x"] {
        let raw = format!("size={value}");
        assert_eq!(
            parse_options(&raw).unwrap_err(),
            ConfigError::InvalidSize { value: value.to_string() },
            "{value}"
        );
    }
}

#[test]
fn size_with_bad_numbers_fails() {
    for value in [
        "10xabc", "-1x5", "4294967296x1", "x5", "5x", "abc%", "%", "1.2.3%", "-5%", "5..%", "e5%",
        "1e%", "1e+%", "inf%", "nan%", "-inf%", "1e2e3%", ".e1%", "--0%", "+-0%", "1 %",
    ] {
        assert!(parse_size(value).is_err(), "{value}");
    }
}

#[test]
fn unknown_filter_falls_back_to_cubic() {
    let config = parse_options("size=10x10,filter=bicubic").unwrap();
    assert_eq!(config.filter, FilterKind::Cubic);
    assert_eq!(filter_from_name("NEAREST"), FilterKind::Cubic);
}

#[test]
fn filter_table() {
    assert_eq!(filter_from_name("default"), FilterKind::Cubic);
    assert_eq!(filter_from_name("nearest"), FilterKind::Nearest);
    assert_eq!(filter_from_name("linear"), FilterKind::Linear);
    assert_eq!(filter_from_name("cubic"), FilterKind::Cubic);
    assert_eq!(filter_from_name("gaussian"), FilterKind::Gaussian);
    assert_eq!(filter_from_name("lanczos3"), FilterKind::Lanczos3);
}

#[test]
fn later_key_wins() {
    let config = parse_options("size=1x1,filter=linear,size=3x4,filter=gaussian").unwrap();
    assert_eq!(
        config,
        ResizeConfig {
            mode: ResizeMode::AbsoluteSize { width: 3, height: 4 },
            filter: FilterKind::Gaussian,
        }
    );
}

#[test]
fn raw_options_lookup() {
    let options = parse_raw_options("a=1,b=2,a=3").unwrap();
    assert_eq!(options.get("a"), Some("3".to_string()));
    assert_eq!(options.get("b"), Some("2".to_string()));
    assert_eq!(options.get("c"), None);
    assert_eq!(config_from_options(&options).unwrap_err(), ConfigError::MissingSize);
}

#[test]
fn size_pairs() {
    assert_eq!(parse_size("0x0").unwrap(), ResizeMode::AbsoluteSize { width: 0, height: 0 });
    assert_eq!(
        parse_size("4294967295x+7").unwrap(),
        ResizeMode::AbsoluteSize { width: 4294967295, height: 7 }
    );
    assert_eq!(parse_size("007x08").unwrap(), ResizeMode::AbsoluteSize { width: 7, height: 8 });
}

#[test]
fn size_percentages() {
    assert_eq!(
        parse_size("12.5%").unwrap(),
        ResizeMode::ScaleFactor { percent: Percentage { digits: 125, frac_len: 1 } }
    );
    assert_eq!(
        parse_size(".5%").unwrap(),
        ResizeMode::ScaleFactor { percent: Percentage { digits: 5, frac_len: 1 } }
    );
    assert_eq!(
        parse_size("200.%").unwrap(),
        ResizeMode::ScaleFactor { percent: Percentage { digits: 200, frac_len: 0 } }
    );
    assert_eq!(
        parse_size("0%").unwrap(),
        ResizeMode::ScaleFactor { percent: Percentage { digits: 0, frac_len: 0 } }
    );
}

#[test]
fn unsigned_parsing_matches_std() {
    for s in ["0", "42", "+42", "4294967295", "4294967296", "", "+", "-1", "1_0", " 1", "٣"] {
        assert_eq!(parse_u32(s), s.parse::<u32>().ok(), "{s}");
    }
}

#[test]
fn percentage_digit_limit() {
    assert_eq!(
        parse_percentage("9999999999999999999"),
        Some(Percentage { digits: 9999999999999999999, frac_len: 0 })
    );
    assert_eq!(
        parse_percentage("99999999999999999999"),
        Some(Percentage { digits: u64::MAX, frac_len: 0 })
    );
    assert_eq!(
        parse_percentage("1.23456789012345678901"),
        Some(Percentage { digits: 1234567890123456789, frac_len: 18 })
    );
    assert_eq!(parse_percentage("+1.25"), Some(Percentage { digits: 125, frac_len: 2 }));
    assert_eq!(parse_percentage("."), None);
}

#[test]
fn exponent_percentages() {
    assert_eq!(
        parse_options("size=1e2%").unwrap().mode,
        ResizeMode::ScaleFactor { percent: Percentage { digits: 100, frac_len: 0 } }
    );
    assert_eq!(
        parse_size("2.5e-1%").unwrap(),
        ResizeMode::ScaleFactor { percent: Percentage { digits: 25, frac_len: 2 } }
    );
    assert_eq!(
        parse_size("5E+1%").unwrap(),
        ResizeMode::ScaleFactor { percent: Percentage { digits: 50, frac_len: 0 } }
    );
    assert_eq!(
        parse_size("1e40%").unwrap(),
        ResizeMode::ScaleFactor { percent: Percentage { digits: u64::MAX, frac_len: 0 } }
    );
    assert_eq!(
        parse_size("1e-99999999999999999999999%").unwrap(),
        ResizeMode::ScaleFactor { percent: Percentage { digits: 0, frac_len: 0 } }
    );
    assert_eq!(
        parse_size("0e99999999999999999999999%").unwrap(),
        ResizeMode::ScaleFactor { percent: Percentage { digits: 0, frac_len: 0 } }
    );
}

#[test]
fn negative_zero_percentage() {
    for value in ["-0%", "-0.0%", "-.0e5%"] {
        assert_eq!(
            parse_size(value).unwrap(),
            ResizeMode::ScaleFactor { percent: Percentage { digits: 0, frac_len: 0 } },
            "{value}"
        );
    }
    assert!(parse_size("-0.1%").is_err());
}

#[test]
fn zero_padded_percentages() {
    let fifty = ResizeMode::ScaleFactor { percent: Percentage { digits: 50, frac_len: 0 } };
    assert_eq!(parse_size("000000000000000000050%").unwrap(), fifty);
    assert_eq!(parse_size("50.0%").unwrap(), fifty);
    assert_eq!(parse_size("50%").unwrap(), fifty);
    assert_eq!(parse_size("0050.000000000000000000000%").unwrap(), fifty);
}

#[test]
fn accepted_percentages_are_floats() {
    for value in ["1e2", "2.5e-1", "-0", "000000000000000000050", "50.0", ".5", "5.", "+7", "1E3"] {
        let n: f32 = value.parse().unwrap();
        assert!(n.is_finite() && n >= 0.0, "{value}");
        assert!(parse_percentage(value).is_some(), "{value}");
    }
}
