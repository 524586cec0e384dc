use microchan::config::{BoardConfig, Config};
use microchan::error::AppError;
use microchan::forms::{
    ban_request, jump_target, opt_str, report_reason, sanitize, truncate, BanForm, PostForm,
    ReportForm,
};
use microchan::views::{
    ban_expiry_text, clamp_page, counts_text, decimal, mod_base, moment_text, omitted_replies,
    has_next_page, page_count, plural, post_url,
    reply_count, thread_url, BoardNav, IndexTemplate,
};

#[test]
fn plural_suffix() {
    assert_eq!(plural(1), "");
    assert_eq!(plural(0), "s");
    assert_eq!(plural(2), "s");
}

#[test]
fn decimal_text() {
    assert_eq!(decimal(0), "0");
    assert_eq!(decimal(42), "42");
    assert_eq!(decimal(-7), "-7");
    assert_eq!(decimal(i64::MAX), i64::MAX.to_string());
    assert_eq!(decimal(i64::MIN), i64::MIN.to_string());
}

#[test]
fn pages() {
    assert_eq!(page_count(0, 10), 1);
    assert_eq!(page_count(10, 10), 1);
    assert_eq!(page_count(11, 10), 2);
    assert_eq!(clamp_page(-3, 2), 0);
    assert_eq!(clamp_page(5, 2), 1);
    assert_eq!(clamp_page(1, 2), 1);
    assert_eq!(reply_count(0), 0);
    assert_eq!(reply_count(5), 4);
    assert_eq!(omitted_replies(4, 3), 1);
    assert_eq!(omitted_replies(2, 3), 0);
}

#[test]
fn counters_and_links() {
    assert_eq!(counts_text(1, 0), "1 repl, 0 imgs");
    assert_eq!(counts_text(3, 1), "3 repls, 1 img");
    assert_eq!(thread_url("b", 12), "/b/thread/12");
    assert_eq!(post_url("b", 12, 15), "/b/thread/12#p15");
}

#[test]
fn moderation_base_path() {
    let mut cfg = Config::default();
    assert_eq!(mod_base(&cfg), "/mod");
    cfg.moderation.mod_secret_url = Some("xyz".into());
    assert_eq!(mod_base(&cfg), "/mod/xyz");
}

#[test]
fn navigation_entries() {
    let b = BoardConfig {
        short: "g".into(),
        title: "Tech".into(),
        description: "gadgets".into(),
        nsfw: true,
        thread_limit: 1,
        bump_limit: 1,
        max_images: 1,
        max_file_size: 1,
        allowed_extensions: vec!["png".into()],
        max_thread_age_days: Some(3),
    };
    let nav = BoardNav::from_config(&b);
    assert_eq!((nav.short.as_str(), nav.title.as_str(), nav.description.as_str(), nav.nsfw), ("g", "Tech", "gadgets", true));
    let mut cfg = Config::default();
    cfg.boards = vec![b.clone(), b];
    let index = IndexTemplate { boards: BoardNav::all(&cfg) };
    assert_eq!(index.boards.len(), 2);
}

#[test]
fn post_form_fields() {
    let form = PostForm {
        name: Some("  Anon#trip  ".into()),
        email: None,
        subject: Some("x".repeat(150)),
        body: Some("  hello \n".into()),
    };
    let (body, name, subject, email) = sanitize(&form).unwrap();
    assert_eq!(body, "hello");
    assert_eq!(name, "Anon#trip");
    assert_eq!(subject.chars().count(), 100);
    assert_eq!(email, "");
    let long = PostForm { name: None, email: None, subject: None, body: Some("é".repeat(4001)) };
    match sanitize(&long) {
        Err(AppError::BadRequest(m)) => assert_eq!(m, "Comment is too long"),
        _ => panic!("expected the length check"),
    }
    let fits = PostForm { name: None, email: None, subject: None, body: Some("é".repeat(4000)) };
    assert!(sanitize(&fits).is_ok());
    assert_eq!(truncate(Some(" ab "), 1), "a");
    assert_eq!(truncate(None, 5), "");
    assert_eq!(opt_str(String::new()), None);
    assert_eq!(opt_str("a".into()), Some("a".to_string()));
}

#[test]
fn report_and_jump() {
    let form = ReportForm { reason: Some("  spam ".into()), csrf: "t".into() };
    assert_eq!(report_reason(&form).as_deref(), Some("spam"));
    let blank = ReportForm { reason: Some("   ".into()), csrf: "t".into() };
    assert_eq!(report_reason(&blank), None);
    assert_eq!(jump_target(Some(5)).ok(), Some(5));
    for bad in [None, Some(0), Some(-1)] {
        match jump_target(bad) {
            Err(AppError::BadRequest(m)) => assert_eq!(m, "Post number is required"),
            _ => panic!("expected a bad request"),
        }
    }
}

#[test]
fn ban_form_checks() {
    let form = BanForm {
        ip_hash: Some("  ".into()),
        file_hash: Some(" abc ".into()),
        reason: " spam ".into(),
        hours: Some(0),
        csrf: "t".into(),
    };
    let b = ban_request(&form).unwrap();
    assert_eq!(b.ip_hash, None);
    assert_eq!(b.file_hash.as_deref(), Some("abc"));
    assert_eq!(b.reason, "spam");
    assert_eq!(b.hours, None);
    assert_eq!(b.target, "abc");
    let no_reason = BanForm { reason: "  ".into(), ..form };
    match ban_request(&no_reason) {
        Err(AppError::BadRequest(m)) => assert_eq!(m, "Reason is required"),
        _ => panic!("expected a bad request"),
    }
    let nothing = BanForm {
        ip_hash: None,
        file_hash: None,
        reason: "r".into(),
        hours: Some(5),
        csrf: "t".into(),
    };
    match ban_request(&nothing) {
        Err(AppError::BadRequest(m)) => assert_eq!(m, "IP hash or file hash is required"),
        _ => panic!("expected a bad request"),
    }
}

#[test]
fn error_responses() {
    assert_eq!(AppError::NotFound.response(), (404, "Not found".to_string()));
    assert_eq!(AppError::bad_request("oops").response(), (400, "oops".to_string()));
    assert_eq!(AppError::Forbidden.response(), (403, "Forbidden".to_string()));
    assert_eq!(AppError::Banned.response(), (403, "You are banned".to_string()));
    assert_eq!(AppError::RateLimited.response(), (429, "You are posting too fast".to_string()));
    assert_eq!(AppError::Internal("db down".into()).response(), (500, "Internal error".to_string()));
    assert_eq!(AppError::Internal("db down".into()).message(), "internal error");
    assert_eq!(AppError::Banned.message(), "banned");
}

#[test]
fn pages_hold_every_thread() {
    for per_page in 1..7i64 {
        for total in 0..40i64 {
            let n = page_count(total, per_page);
            assert!(n >= 1);
            assert!(total <= n * per_page);
            if total > 0 {
                assert!((n - 1) * per_page < total);
            }
        }
    }
}

#[test]
fn panel_moments() {
    assert_eq!(moment_text(0), "01/01/70 00:00");
    assert_eq!(moment_text(1_700_000_000_000_000), "14/11/23 22:13");
    assert_eq!(ban_expiry_text(None), "permanent");
    assert_eq!(ban_expiry_text(Some(1_700_000_000_000_000)), "14/11/23 22:13");
    assert_eq!(moment_text(i64::MAX), "");
}

#[test]
fn next_page_links() {
    assert!(has_next_page(0, 3));
    assert!(has_next_page(1, 3));
    assert!(!has_next_page(2, 3));
    assert!(!has_next_page(0, 1));
    assert!(!has_next_page(i64::MAX, i64::MAX));
    assert!(has_next_page(i64::MIN, i64::MAX));
}
