use microchan::error::AppError;
use microchan::forms::{prepare_post, reply_failure, PostForm};
use microchan::tripcode::secure_tripcode;

fn form(name: Option<&str>, body: Option<&str>) -> PostForm {
    PostForm {
        name: name.map(str::to_string),
        email: Some("  sage ".to_string()),
        subject: Some("".to_string()),
        body: body.map(str::to_string),
    }
}

#[test]
fn prepared_post_fields() {
    let p = match prepare_post(&form(Some(" anon #asd "), Some("  hello  ")), "salt") {
        Ok(p) => p,
        Err(e) => panic!("rejected: {e:?}"),
    };
    assert_eq!(p.body, "hello");
    assert_eq!(p.name.as_deref(), Some("anon"));
    assert_eq!(p.tripcode.as_deref(), Some("!TAPy3blMsc"));
    assert_eq!(p.email.as_deref(), Some("sage"));
    assert_eq!(p.subject, None);

    let p = prepare_post(&form(Some("##password"), Some("x")), "salt").unwrap();
    assert_eq!(p.name, None);
    let secure = secure_tripcode("password", "salt").unwrap();
    assert_eq!(p.tripcode, Some(format!("!!{secure}")));

    let p = prepare_post(&form(None, Some("x")), "salt").unwrap();
    assert_eq!(p.name, None);
    assert_eq!(p.tripcode, None);
}

#[test]
fn prepared_post_rejections() {
    match prepare_post(&form(None, Some("   ")), "s") {
        Err(AppError::BadRequest(m)) => assert_eq!(m, "Comment is required"),
        other => panic!("unexpected: {other:?}"),
    }
    match prepare_post(&form(None, None), "s") {
        Err(AppError::BadRequest(m)) => assert_eq!(m, "Comment is required"),
        other => panic!("unexpected: {other:?}"),
    }
    let long = "a".repeat(8001);
    match prepare_post(&form(None, Some(&long)), "s") {
        Err(AppError::BadRequest(m)) => assert_eq!(m, "Comment is too long"),
        other => panic!("unexpected: {other:?}"),
    }
    let fits = "a".repeat(8000);
    assert!(prepare_post(&form(None, Some(&fits)), "s").is_ok());
}

#[test]
fn reply_failures() {
    match reply_failure("thread is locked") {
        AppError::BadRequest(m) => assert_eq!(m, "Thread is locked"),
        other => panic!("unexpected: {other:?}"),
    }
    assert!(matches!(reply_failure("thread not found"), AppError::NotFound));
    assert!(matches!(reply_failure("locked, and not found"), AppError::BadRequest(_)));
    match reply_failure("connection reset") {
        AppError::Internal(m) => assert_eq!(m, "connection reset"),
        other => panic!("unexpected: {other:?}"),
    }
    assert!(matches!(reply_failure(""), AppError::Internal(_)));
}
