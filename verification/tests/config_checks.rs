use navigation::config::{Config, Optimize};

// The values the argument parser would hand over for
// `params.json --out result.json --json -e`.
#[test]
fn make_config_test() {
    let config = Config::make_config(
        String::from("params.json"),
        Some(String::from("result.json")),
        true,
        false,
        false,
        false,
        true,
    )
    .unwrap();
    assert_eq!("params.json", config.params_file);
    assert_eq!(Some(String::from("result.json")), config.out_filename);
    assert!(config.out_as_json);
    assert_eq!(Optimize::Energy, config.optimize);
}

// The first optimize switch present wins, in the order intuitive, time,
// battery, energy.
#[test]
fn make_config_picks_first_present_switch() {
    let c = Config::make_config(String::from("p"), None, false, true, true, true, true).unwrap();
    assert_eq!(Optimize::Intuitive, c.optimize);
    let c = Config::make_config(String::from("p"), None, false, false, true, false, true).unwrap();
    assert_eq!(Optimize::Time, c.optimize);
    let c = Config::make_config(String::from("p"), None, false, false, false, true, true).unwrap();
    assert_eq!(Optimize::Battery, c.optimize);
}

// Without any optimize switch there is no configuration.
#[test]
fn make_config_requires_a_switch() {
    assert!(Config::make_config(String::from("p"), None, false, false, false, false, false)
        .is_none());
}
