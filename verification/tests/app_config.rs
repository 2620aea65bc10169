use swift_det_lib::config::{AiConfig, Config, DatabaseConfig, EmailConfig, Model, ServerConfig, SessionConfig, StorageConfig};

#[test]
fn get_path_joins_root_and_filename() {
    let storage = StorageConfig { path: String::from("/srv/files") };
    assert_eq!(storage.get_path(String::from("a.png")), "/srv/files/a.png");
}

#[test]
fn get_model_path_finds_the_first_match() {
    let ai = AiConfig {
        models: vec![
            Model { name: String::from("swift"), path: String::from("/m/swift.onnx") },
            Model { name: String::from("swift"), path: String::from("/m/other.onnx") },
            Model { name: String::from("owl"), path: String::from("/m/owl.onnx") },
        ],
    };
    assert_eq!(ai.get_model_path("swift"), Some(String::from("/m/swift.onnx")));
    assert_eq!(ai.get_model_path("owl"), Some(String::from("/m/owl.onnx")));
    assert_eq!(ai.get_model_path("sparrow"), None);
}

#[test]
fn whole_configuration_is_constructible() {
    let cfg = Config {
        database: DatabaseConfig { path: String::from("mongodb://localhost") },
        storage: StorageConfig { path: String::from("/srv/files") },
        session: SessionConfig { logout_on_ip_change: true, timeout: 3600 },
        email: EmailConfig {
            host: String::from("smtp.example.org"),
            port: 465,
            username: String::from("mailer"),
            password: String::from("SECRET-REDACTED"),
            from: String::from("noreply@example.org"),
        },
        ai: AiConfig { models: vec![] },
        server: ServerConfig {
            host: String::from("0.0.0.0"),
            port: 8080,
            origins: vec![String::from("https://example.org")],
            base_url: String::from("https://example.org"),
        },
    };
    assert!(cfg.session.logout_on_ip_change);
    assert_eq!(cfg.server.port, 8080);
}
