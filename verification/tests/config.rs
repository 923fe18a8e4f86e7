use direlera_rs::config::{default_main_port, default_sub_port, Config};

#[test]
fn default_ports_follow_the_readme() {
    assert_eq!(default_main_port(), 8080);
    assert_eq!(default_sub_port(), 27888);
    let c = Config::default();
    assert_eq!(c.main_port, 8080);
    assert_eq!(c.control_port, 27888);
    assert_eq!(c.tracing.level, "info");
    assert_eq!(c.welcome_message, "Welcome to the Kaillera server!");
}
