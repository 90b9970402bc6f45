use docker_stats::config::{
    long_option, seconds_arg, short_option, Config, ProgramOption, Setting, USAGE,
};

#[test]
fn default_settings() {
    let config = Config::default();
    assert_eq!(config.listen_addr, "127.0.0.1:9100");
    assert_eq!(config.render_seconds, 5);
}

#[test]
fn settings_are_changed_one_by_one() {
    let config = Config::default().with_listen_addr("[::1]:80".to_string());
    let config = config.with_render_seconds(7).unwrap();
    assert_eq!(config.listen_addr, "[::1]:80");
    assert_eq!(config.render_seconds, 7);
}

#[test]
fn zero_seconds_are_refused() {
    let error = Config::default().with_render_seconds(0).unwrap_err();
    assert_eq!(error.message(), "render-seconds must be greater than zero");
    assert_eq!(seconds_arg("pause", 0).unwrap_err().message(), "pause must be greater than zero");
    assert_eq!(seconds_arg("pause", 1).unwrap(), 1);
    assert_eq!(seconds_arg("pause", u64::MAX).unwrap(), u64::MAX);
}

#[test]
fn options_are_known_by_letter_and_word() {
    assert_eq!(short_option('l'), Some(ProgramOption::Listen));
    assert_eq!(short_option('r'), Some(ProgramOption::RenderSeconds));
    assert_eq!(short_option('h'), None);
    assert_eq!(long_option("listen"), Some(ProgramOption::Listen));
    assert_eq!(long_option("render-seconds"), Some(ProgramOption::RenderSeconds));
    assert_eq!(long_option("help"), Some(ProgramOption::Help));
    assert_eq!(long_option("Listen"), None);
    assert_eq!(long_option(""), None);
}

#[test]
fn usage_names_every_option() {
    let lines: Vec<&str> = USAGE.split('\n').collect();
    assert_eq!(
        lines,
        vec![
            "Usage: docker-stats [OPTIONS]",
            "",
            "Options:",
            "  -l, --listen ADDR             Address for the Prometheus metrics endpoint [default: 127.0.0.1:9100]",
            "  -r, --render-seconds SECONDS  How often to render the current metrics body [default: 5]",
            "      --help                    Show this help",
        ]
    );
}

#[test]
fn the_last_setting_wins() {
    let config = Config::default()
        .with_settings(vec![
            Setting::RenderSeconds(7),
            Setting::Listen("a:1".to_string()),
            Setting::RenderSeconds(9),
            Setting::Listen("b:2".to_string()),
        ])
        .unwrap();
    assert_eq!(config.listen_addr, "b:2");
    assert_eq!(config.render_seconds, 9);
    let config = config.with_settings(vec![Setting::RenderSeconds(1)]).unwrap();
    assert_eq!(config.listen_addr, "b:2");
    assert_eq!(config.render_seconds, 1);
    let config = config.with_setting(Setting::Listen("c:3".to_string())).unwrap();
    assert_eq!(config.listen_addr, "c:3");
    assert_eq!(config.render_seconds, 1);
    let config = Config::default().with_settings(vec![]).unwrap();
    assert_eq!(config.listen_addr, "127.0.0.1:9100");
    assert_eq!(config.render_seconds, 5);
}

#[test]
fn a_later_setting_does_not_mend_zero_seconds() {
    let refused = Config::default()
        .with_settings(vec![Setting::RenderSeconds(0), Setting::RenderSeconds(3)]);
    assert_eq!(refused.unwrap_err().message(), "render-seconds must be greater than zero");
}
