use repo_manager::admin_config::AdminConfig;
use repo_manager::admin_config::Credentials;
use repo_manager::config_change::AdminCheckParams;
use repo_manager::config_change::ChangeConfigPayload;
use repo_manager::config_change::ChangeError;
use repo_manager::general_config::GeneralConfig;
use repo_manager::general_config::LoggingConfig;
use repo_manager::general_config::ServerConfig;
use repo_manager::general_config::ThemeConfig;
use repo_manager::general_config::TracingLevel;
use repo_manager::log_control::LogController;
use repo_manager::state::State;
use repo_manager::OpError;

fn fresh_state() -> State {
    let general = GeneralConfig {
        server: ServerConfig { port: 8080 },
        theme: ThemeConfig {
            company_name: String::from("Acme"),
            icon_path: String::from("data/icon.png"),
        },
        logging: LoggingConfig { max_level: None },
    };
    let admin = AdminConfig::new(Credentials::new(String::from("secret")));
    State::new(general, admin)
}

fn installed_controller() -> LogController {
    let mut controller = LogController::new();
    controller.install(Some(TracingLevel::Warn));
    controller
}

#[test]
fn hash_always_matches_password() {
    let creds = Credentials::new(String::from("pw"));
    assert_eq!(creds.hash(), &sha256::digest(String::from("pw")));
    let mut creds = creds;
    creds.set_password(String::from("other"));
    assert_eq!(creds.hash(), &sha256::digest(String::from("other")));
}

#[test]
fn check_admin_hash_accepts_exactly_the_digest() {
    let admin = AdminConfig::new(Credentials::new(String::from("v")));
    assert!(admin.check_admin_hash(sha256::digest(String::from("v"))));
    assert!(!admin.check_admin_hash(sha256::digest(String::from("vx"))));
    assert!(!admin.check_admin_hash(String::from("v")));
}

#[test]
fn tracing_level_parses_exact_names_only() {
    assert_eq!(TracingLevel::from_str("Trace"), Ok(TracingLevel::Trace));
    assert_eq!(TracingLevel::from_str("Debug"), Ok(TracingLevel::Debug));
    assert_eq!(TracingLevel::from_str("Info"), Ok(TracingLevel::Info));
    assert_eq!(TracingLevel::from_str("Warn"), Ok(TracingLevel::Warn));
    assert_eq!(TracingLevel::from_str("Error"), Ok(TracingLevel::Error));
    assert_eq!(TracingLevel::from_str("warn"), Err(OpError::BadRequest));
    assert_eq!(TracingLevel::from_str(""), Err(OpError::BadRequest));
}

#[test]
fn controller_threshold_suppresses_lower_severities() {
    let mut controller = LogController::new();
    controller.install(None);
    // the default threshold is Warn
    assert!(controller.would_emit(&TracingLevel::Error));
    assert!(controller.would_emit(&TracingLevel::Warn));
    assert!(!controller.would_emit(&TracingLevel::Info));
    controller.set_threshold(TracingLevel::Error);
    assert!(controller.would_emit(&TracingLevel::Error));
    assert!(!controller.would_emit(&TracingLevel::Warn));
    assert!(!controller.would_emit(&TracingLevel::Trace));
}

#[test]
fn change_password_rehashes() {
    let mut state = fresh_state();
    let mut controller = installed_controller();
    let payload = ChangeConfigPayload {
        path: String::from("admin.credentials.password"),
        value: String::from("np"),
    };
    let r = state.change_config(&mut controller, payload.path.as_str(), payload.value);
    assert_eq!(r, Ok(None));
    let check = AdminCheckParams { admin_hash: sha256::digest(String::from("np")) };
    assert!(state.admin_config().check_admin_hash(check.admin_hash));
    assert!(!state.admin_config().check_admin_hash(sha256::digest(String::from("secret"))));
}

#[test]
fn change_addressing_is_case_insensitive() {
    let mut state = fresh_state();
    let mut controller = installed_controller();
    let r = state.change_config(&mut controller, "General.Theme.Company_Name", String::from("N"));
    assert_eq!(r, Ok(None));
    assert_eq!(state.general_config().theme.company_name, "N");
}

#[test]
fn change_theme_fields() {
    let mut state = fresh_state();
    let mut controller = installed_controller();
    assert_eq!(
        state.change_config(&mut controller, "general.theme.icon_path", String::from("i.png")),
        Ok(None)
    );
    assert_eq!(state.general_config().theme.icon_path, "i.png");
    assert_eq!(state.general_config().theme.company_name, "Acme");
}

#[test]
fn change_port_is_refused() {
    let mut state = fresh_state();
    let mut controller = installed_controller();
    let r = state.change_config(&mut controller, "general.server.port", String::from("9999"));
    assert_eq!(r, Err(ChangeError::PortImmutable));
    assert_eq!(state.general_config().server.port, 8080);
}

#[test]
fn change_log_level_repoints_controller_without_restart() {
    let mut state = fresh_state();
    let mut controller = installed_controller();
    assert!(controller.would_emit(&TracingLevel::Warn));
    let r = state.change_config(&mut controller, "general.logging.max_level", String::from("Error"));
    assert_eq!(r, Ok(Some(TracingLevel::Error)));
    assert_eq!(state.general_config().logging.max_level, Some(TracingLevel::Error));
    // emissions below Error are now suppressed
    assert!(!controller.would_emit(&TracingLevel::Warn));
    assert!(!controller.would_emit(&TracingLevel::Info));
    assert!(controller.would_emit(&TracingLevel::Error));
}

#[test]
fn change_rejections() {
    let mut state = fresh_state();
    let mut controller = installed_controller();
    assert_eq!(
        state.change_config(&mut controller, "general", String::from("v")),
        Err(ChangeError::NoSection)
    );
    assert_eq!(
        state.change_config(&mut controller, "general.theme", String::from("v")),
        Err(ChangeError::NoField)
    );
    assert_eq!(
        state.change_config(&mut controller, "a.b.c", String::from("v")),
        Err(ChangeError::UnknownField)
    );
    assert_eq!(
        state.change_config(&mut controller, "general.logging.max_level", String::from("Loud")),
        Err(ChangeError::InvalidLogLevel)
    );
    assert_eq!(state.general_config().logging.max_level, None);
}

#[test]
fn rejection_messages() {
    assert_eq!(ChangeError::NoSection.message(), "No part provided");
    assert_eq!(ChangeError::NoField.message(), "No param provided");
    assert_eq!(ChangeError::PortImmutable.message(), "Cannot change port via api");
    assert_eq!(
        ChangeError::InvalidLogLevel.message(),
        "Invalid log level provided (Trace, Debug, Info, Warn, Error)"
    );
    assert_eq!(ChangeError::UnknownField.message(), "Unknown config");
}

#[test]
fn state_snapshots() {
    let state = fresh_state();
    assert_eq!(state.general_config().server.port, 8080);
    assert_eq!(state.general_config().theme.company_name, "Acme");
    assert!(state.admin_config().check_admin_hash(sha256::digest(String::from("secret"))));
}

#[test]
fn set_hash_keeps_password() {
    let mut creds = Credentials::new(String::from("p"));
    creds.set_hash();
    assert_eq!(creds.password().as_str(), "p");
    assert_eq!(creds.hash(), &sha256::digest(String::from("p")));
}
