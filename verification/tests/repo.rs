use std::collections::HashMap;

use microchan::models::{FileRow, PostRow, ThreadRow};
use microchan::repo::{page_window, shown_post_ids, summarize_threads, REPLIES_ON_BOARD};

fn thread(id: i64, sticky: bool, posts: i32) -> ThreadRow {
    ThreadRow {
        id,
        board: "b".to_string(),
        created_at: 1_700_000_000_000_000 + id,
        last_bump: 1_700_000_000_500_000 + id,
        sticky,
        locked: false,
        post_count: posts,
        deleted: false,
    }
}

fn post(id: i64, thread_id: Option<i64>, body: &str) -> PostRow {
    PostRow {
        id,
        thread_id,
        board: "b".to_string(),
        is_op: thread_id.is_none(),
        name: Some("Anon".to_string()),
        tripcode: None,
        email: None,
        subject: None,
        body: body.to_string(),
        ip_hash: "h".to_string(),
        created_at: id,
        deleted: false,
        delete_reason: None,
    }
}

fn file(id: i64, post_id: i64) -> FileRow {
    FileRow {
        id,
        post_id,
        original_name: format!("f{id}.png"),
        stored_name: format!("s{id}.png"),
        mime: "image/png".to_string(),
        size: 100,
        width: Some(10),
        height: Some(10),
        sha256: "00".repeat(32),
        spoiler: false,
        deleted: false,
    }
}

#[test]
fn page_window_clamps_and_offsets() {
    assert_eq!(page_window(0, 10, 0), (1, 0, 0));
    assert_eq!(page_window(0, 10, 5), (1, 0, 0));
    assert_eq!(page_window(25, 10, 1), (3, 1, 10));
    assert_eq!(page_window(25, 10, 7), (3, 2, 20));
    assert_eq!(page_window(25, 10, -4), (3, 0, 0));
    assert_eq!(page_window(30, 10, 2), (3, 2, 20));
}

#[test]
fn shown_ids_are_ops_then_replies() {
    let ops = vec![post(1, None, "a"), post(5, None, "b")];
    let replies = vec![post(7, Some(1), "c"), post(9, Some(5), "d")];
    assert_eq!(shown_post_ids(&ops, &replies), vec![1, 5, 7, 9]);
    assert_eq!(shown_post_ids(&[], &[]), Vec::<i64>::new());
}

#[test]
fn summaries_put_rows_together() {
    let threads = vec![thread(5, true, 4), thread(1, false, 2), thread(12, false, 1)];
    let ops = vec![post(1, None, "first"), post(5, None, "fifth")];
    let replies = vec![
        post(2, Some(1), "r2"),
        post(6, Some(5), "r6"),
        post(7, Some(5), "r7"),
        post(8, Some(5), "r8"),
    ];
    let files = vec![file(100, 5), file(101, 7), file(102, 5)];
    let mut counts = HashMap::new();
    counts.insert(5, 3);
    counts.insert(1, 0);

    let s = summarize_threads(&threads, &ops, &replies, &files, &counts);
    assert_eq!(s.len(), 3);

    assert_eq!(s[0].op.id, 5);
    assert_eq!(s[0].op.body, "fifth");
    let ids: Vec<i64> = s[0].replies.iter().map(|p| p.id).collect();
    assert_eq!(ids, vec![6, 7, 8]);
    assert_eq!(s[0].image_count, 3);
    assert!(s[0].sticky);
    assert_eq!(s[0].post_count, 4);

    assert_eq!(s[1].op.body, "first");
    let ids: Vec<i64> = s[1].replies.iter().map(|p| p.id).collect();
    assert_eq!(ids, vec![2]);
    assert_eq!(s[1].image_count, 0);

    // The opening post of thread 12 was not read: a deleted, empty stand-in.
    assert_eq!(s[2].op.id, 12);
    assert_eq!(s[2].op.thread_id, Some(12));
    assert!(s[2].op.deleted && s[2].op.is_op);
    assert!(s[2].op.body.is_empty() && s[2].op.ip_hash.is_empty());
    assert_eq!(s[2].op.created_at, threads[2].created_at);
    assert!(s[2].replies.is_empty());
    assert_eq!(s[2].image_count, 0);

    // Every summary holds the files of all shown posts, grouped in order.
    for summary in &s {
        assert_eq!(summary.files.len(), 2);
        let of5: Vec<i64> = summary.files[&5].iter().map(|f| f.id).collect();
        assert_eq!(of5, vec![100, 102]);
        let of7: Vec<i64> = summary.files[&7].iter().map(|f| f.id).collect();
        assert_eq!(of7, vec![101]);
    }
}

#[test]
fn no_threads_no_summaries() {
    let s = summarize_threads(&[], &[], &[], &[], &HashMap::new());
    assert!(s.is_empty());
    assert_eq!(REPLIES_ON_BOARD, 3);
}
