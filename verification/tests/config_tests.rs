use osc_repeater::config::Config;
use osc_repeater::config::ConfigError;

fn targets(n: usize) -> Vec<String> {
    (0..n).map(|i| format!("127.0.0.1:{}", 9000 + i)).collect()
}

#[test]
fn valid_config_is_accepted() {
    let config = Config {
        listen_ports: vec![8000, 8001],
        targets: targets(2),
    };
    assert!(config.validate().is_ok());
}

#[test]
fn empty_port_list_is_rejected() {
    let config = Config {
        listen_ports: vec![],
        targets: targets(1),
    };
    assert_eq!(config.validate(), Err(ConfigError::NoListenPorts));
}

#[test]
fn empty_target_list_is_rejected() {
    let config = Config {
        listen_ports: vec![8000],
        targets: vec![],
    };
    assert_eq!(config.validate(), Err(ConfigError::NoTargets));
}

#[test]
fn zero_port_is_rejected() {
    let config = Config {
        listen_ports: vec![8000, 0, 8002],
        targets: targets(1),
    };
    assert_eq!(config.validate(), Err(ConfigError::InvalidPort(0)));
}
