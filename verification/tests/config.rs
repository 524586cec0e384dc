use microchan::config::{
    BoardConfig, Config, DatabaseConfig, MediaConfig, ModerationConfig, SecurityConfig,
    ServerConfig,
};
use microchan::net::{IpAddress, IpNetwork};

fn board(short: &str, exts: &[&str]) -> BoardConfig {
    BoardConfig {
        short: short.into(),
        title: format!("Board {short}"),
        description: String::new(),
        nsfw: false,
        thread_limit: 100,
        bump_limit: 300,
        max_images: 4,
        max_file_size: 1 << 20,
        allowed_extensions: exts.iter().map(|s| s.to_string()).collect(),
        max_thread_age_days: None,
    }
}

fn valid_config() -> Config {
    let mut cfg = Config::default();
    cfg.security.secret = "s3cret".into();
    cfg.moderation.admin_password = "pw".into();
    cfg.boards = vec![board("b", &["png"]), board("a", &["jpg"])];
    cfg
}

#[test]
fn defaults() {
    let s = ServerConfig::default();
    assert_eq!(s.host, "127.0.0.1");
    assert_eq!(s.port, 8080);
    assert_eq!(s.base_url, "http://localhost:8080");
    assert_eq!(s.data_dir, "data");
    assert_eq!(
        s.trusted_proxies,
        vec![IpNetwork { addr: IpAddress::V4([127, 0, 0, 1]), prefix_len: 32 }]
    );
    assert_eq!(DatabaseConfig::default().url, "postgres://localhost/microchan");
    let sec = SecurityConfig::default();
    assert_eq!(sec.secret, "");
    assert_eq!(sec.max_posts_per_minute, 10);
    assert!(!sec.hsts);
    assert_eq!(ModerationConfig::default().session_hours, 12);
    let m = MediaConfig::default();
    assert_eq!((m.thumb_width, m.thumb_height, m.thumb_quality), (200, 200, 80));
    assert_eq!(m.max_video_seconds, 0);
    assert_eq!(m.max_image_pixels, 50_000_000);
    assert!(Config::default().boards.is_empty());
    let c = Config::default();
    assert_eq!(c.server.host, "127.0.0.1");
    assert_eq!(c.server.base_url, "http://localhost:8080");
    assert_eq!(c.server.data_dir, "data");
    assert_eq!(c.server.trusted_proxies.len(), 1);
    assert!(c.security.secure_trip_salt.is_none() && c.security.old_secrets.is_empty());
    assert_eq!(c.security.max_posts_per_minute, 10);
    assert!(c.moderation.mod_secret_url.is_none() && c.moderation.admin_password.is_empty());
    assert_eq!((c.media.thumb_width, c.media.thumb_height, c.media.thumb_quality), (200, 200, 80));
    assert_eq!(c.security.secure_trip_salt(), "");
}

#[test]
fn secure_trip_salt_falls_back_to_secret() {
    let mut sec = SecurityConfig::default();
    sec.secret = "main".into();
    assert_eq!(sec.secure_trip_salt(), "main");
    sec.secure_trip_salt = Some("trip".into());
    assert_eq!(sec.secure_trip_salt(), "trip");
}

#[test]
fn validate_accepts_a_sound_config() {
    assert_eq!(valid_config().validate(), Ok(()));
}

#[test]
fn validate_reports_the_first_problem() {
    let mut cfg = valid_config();
    cfg.security.secret.clear();
    assert_eq!(
        cfg.validate(),
        Err("security.secret is required (set in config or MICROCHAN_SECRET)".to_string())
    );

    let mut cfg = valid_config();
    cfg.boards.push(board("", &["png"]));
    assert_eq!(cfg.validate(), Err("board short name cannot be empty".to_string()));

    let mut cfg = valid_config();
    cfg.boards.push(board("v", &[]));
    assert_eq!(cfg.validate(), Err("board v has no allowed_extensions".to_string()));

    let mut cfg = valid_config();
    cfg.boards.push(board("b", &["gif"]));
    assert_eq!(cfg.validate(), Err("duplicate board short name: b".to_string()));

    let mut cfg = valid_config();
    cfg.moderation.admin_password.clear();
    assert_eq!(cfg.validate(), Err("moderation.admin_password is required".to_string()));
}

#[test]
fn board_lookup() {
    let cfg = valid_config();
    assert_eq!(cfg.board("a").map(|b| b.title.clone()), Some("Board a".to_string()));
    assert!(cfg.board("zz").is_none());
}

#[test]
fn overrides() {
    let mut cfg = valid_config();
    cfg.moderation.mod_secret_url = Some(String::new());
    cfg.apply_overrides(Some("postgres://db/x".into()), None);
    assert_eq!(cfg.moderation.mod_secret_url, None);
    assert_eq!(cfg.database.url, "postgres://db/x");
    assert_eq!(cfg.security.secret, "s3cret");
    cfg.moderation.mod_secret_url = Some("hidden".into());
    cfg.apply_overrides(None, Some("other".into()));
    assert_eq!(cfg.moderation.mod_secret_url.as_deref(), Some("hidden"));
    assert_eq!(cfg.security.secret, "other");
}
