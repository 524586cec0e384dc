//! A board page: which slice of threads to show, and how the rows read for
//! them are put together into thread summaries.
use std::collections::HashMap;

use vstd::prelude::*;

use crate::models::{FileRow, PostRow, ThreadRow};
use crate::views::{clamp_page, lemma_pages_cover, page_count, spec_page_count};

verus! {

/// How many of the last replies of a thread a board page shows.
pub const REPLIES_ON_BOARD: i64 = 3;

/// A thread as shown on a board page.
pub struct ThreadSummary {
    pub op: PostRow,
    /// The last replies (not the opening post), by ascending id.
    pub replies: Vec<PostRow>,
    /// Files of the shown posts: post id -> files.
    pub files: HashMap<i64, Vec<FileRow>>,
    /// Images in the whole thread.
    pub image_count: i64,
    pub sticky: bool,
    pub locked: bool,
    pub post_count: i32,
}

// ------------------------------------------------------------------ the page

/// The number of pages, the requested page brought into range, and the number
/// of threads before it.
pub open spec fn spec_page_window(total: int, per_page: int, page: int) -> (int, int, int) {
    let pages = spec_page_count(total, per_page);
    let p = if page < 0 {
        0
    } else if page > pages - 1 {
        pages - 1
    } else {
        page
    };
    (pages, p, p * per_page)
}

/// The page of a board to show: `(pages, page, offset)`.
pub fn page_window(total: i64, per_page: i64, page: i64) -> (res: (i64, i64, i64))
    requires
        0 <= total,
        per_page > 0,
        total + per_page - 1 <= i64::MAX,
    ensures
        (res.0 as int, res.1 as int, res.2 as int) == spec_page_window(
            total as int,
            per_page as int,
            page as int,
        ),
{
    let pages = page_count(total, per_page);
    let p = clamp_page(page, pages);
    proof {
        lemma_pages_cover(total as int, per_page as int);
        assert(p * per_page <= (pages - 1) * per_page) by (nonlinear_arith)
            requires
                0 <= p <= pages - 1,
                per_page > 0,
        ;
        assert(p * per_page >= 0) by (nonlinear_arith)
            requires
                0 <= p,
                per_page > 0,
        ;
    }
    (pages, p, p * per_page)
}

// ------------------------------------------------------------------ ids

/// The ids of some posts, in order.
pub open spec fn ids_of(posts: Seq<PostRow>) -> Seq<i64> {
    posts.map_values(|p: PostRow| p.id)
}

/// The ids of the posts whose files are shown: the opening posts, then the replies.
pub fn shown_post_ids(ops: &[PostRow], replies: &[PostRow]) -> (res: Vec<i64>)
    ensures
        res@ == ids_of(ops@) + ids_of(replies@),
{
    let mut out: Vec<i64> = Vec::new();
    for i in 0..ops.len()
        invariant
            out@ == ids_of(ops@.take(i as int)),
    {
        assert(ops@.take(i + 1) =~= ops@.take(i as int).push(ops@[i as int]));
        out.push(ops[i].id);
        assert(out@ =~= ids_of(ops@.take(i + 1)));
    }
    assert(ops@.take(ops@.len() as int) =~= ops@);
    let ghost head = out@;
    for i in 0..replies.len()
        invariant
            head == ids_of(ops@),
            out@ == head + ids_of(replies@.take(i as int)),
    {
        assert(replies@.take(i + 1) =~= replies@.take(i as int).push(replies@[i as int]));
        out.push(replies[i].id);
        assert(out@ =~= head + ids_of(replies@.take(i + 1)));
    }
    assert(replies@.take(replies@.len() as int) =~= replies@);
    out
}

// ------------------------------------------------------------------ summaries

/// The first post of `ops` with id `id`.
pub open spec fn find_post(ops: Seq<PostRow>, id: i64) -> Option<PostRow>
    decreases ops.len(),
{
    if ops.len() == 0 {
        None
    } else if ops[0].id == id {
        Some(ops[0])
    } else {
        find_post(ops.drop_first(), id)
    }
}

/// The opening post found for a thread is the first post read with the
/// thread's id; none is found only where no post read has it.
pub proof fn lemma_found_op_has_id(ops: Seq<PostRow>, id: i64)
    ensures
        match find_post(ops, id) {
            Some(p) => p.id == id && exists|i: int|
                0 <= i < ops.len() && ops[i] == p && forall|j: int|
                    0 <= j < i ==> #[trigger] ops[j].id != id,
            None => forall|i: int| 0 <= i < ops.len() ==> #[trigger] ops[i].id != id,
        },
    decreases ops.len(),
{
    if ops.len() > 0 {
        let rest = ops.drop_first();
        lemma_found_op_has_id(rest, id);
        if ops[0].id != id {
            match find_post(rest, id) {
                Some(p) => {
                    let i = choose|i: int|
                        0 <= i < rest.len() && rest[i] == p && forall|j: int|
                            0 <= j < i ==> #[trigger] rest[j].id != id;
                    assert(ops[i + 1] == p);
                    assert forall|j: int| 0 <= j < i + 1 implies #[trigger] ops[j].id != id by {
                        if j > 0 {
                            assert(ops[j] == rest[j - 1]);
                        }
                    }
                },
                None => {
                    assert forall|i: int| 0 <= i < ops.len() implies #[trigger] ops[i].id != id by {
                        if i > 0 {
                            assert(ops[i] == rest[i - 1]);
                        }
                    }
                },
            }
        }
    }
}

/// `p` stands for the opening post of thread `t` that was not found: a
/// deleted, empty post of the thread, at the thread's time.
pub open spec fn is_missing_op(p: PostRow, t: ThreadRow) -> bool {
    &&& p.id == t.id
    &&& p.thread_id == Some(t.id)
    &&& p.board == t.board
    &&& p.is_op
    &&& p.name is None
    &&& p.tripcode is None
    &&& p.email is None
    &&& p.subject is None
    &&& p.body@.len() == 0
    &&& p.ip_hash@.len() == 0
    &&& p.created_at == t.created_at
    &&& p.deleted
    &&& p.delete_reason is None
}

/// `p` is the opening post shown for thread `t`: the first of `ops` with the
/// thread's id, or the stand-in where there is none.
pub open spec fn is_op_for(p: PostRow, ops: Seq<PostRow>, t: ThreadRow) -> bool {
    match find_post(ops, t.id) {
        Some(q) => p == q,
        None => is_missing_op(p, t),
    }
}

/// The replies of the thread numbered `id`, in their order.
pub open spec fn replies_for(replies: Seq<PostRow>, id: i64) -> Seq<PostRow> {
    replies.filter(|p: PostRow| p.thread_id == Some(id))
}

/// Ids strictly ascending along `posts`.
pub open spec fn ids_ascending(posts: Seq<PostRow>) -> bool {
    forall|i: int, j: int| 0 <= i < j < posts.len() ==> posts[i].id < posts[j].id
}

/// Picking the replies of one thread keeps their order: read by ascending id,
/// they stay by ascending id; and each is one of the replies read.
pub proof fn lemma_replies_keep_order(replies: Seq<PostRow>, id: i64)
    requires
        ids_ascending(replies),
    ensures
        ids_ascending(replies_for(replies, id)),
        forall|k: int|
            0 <= k < replies_for(replies, id).len() ==> exists|j: int|
                0 <= j < replies.len() && #[trigger] replies_for(replies, id)[k] == replies[j],
    decreases replies.len(),
{
    reveal(Seq::filter);
    if replies.len() > 0 {
        let t = replies.drop_last();
        let last = replies.last();
        assert forall|i: int, j: int| 0 <= i < j < t.len() implies t[i].id < t[j].id by {
            assert(t[i] == replies[i] && t[j] == replies[j]);
        }
        lemma_replies_keep_order(t, id);
        let f = replies_for(t, id);
        if last.thread_id == Some(id) {
            let r = f.push(last);
            assert(replies_for(replies, id) == r);
            assert forall|k: int| 0 <= k < r.len() implies exists|j: int|
                0 <= j < replies.len() && #[trigger] r[k] == replies[j] by {
                if k < f.len() {
                    let j = choose|j: int| 0 <= j < t.len() && #[trigger] f[k] == t[j];
                    assert(r[k] == replies[j]);
                } else {
                    assert(r[k] == replies[replies.len() - 1]);
                }
            }
            assert forall|a: int, b: int| 0 <= a < b < r.len() implies r[a].id < r[b].id by {
                if b < f.len() {
                    assert(r[a] == f[a] && r[b] == f[b]);
                } else {
                    let j = choose|j: int| 0 <= j < t.len() && #[trigger] f[a] == t[j];
                    assert(r[a] == replies[j]);
                    assert(r[b] == replies[replies.len() - 1]);
                }
            }
        } else {
            assert(replies_for(replies, id) == f);
            assert forall|k: int| 0 <= k < f.len() implies exists|j: int|
                0 <= j < replies.len() && #[trigger] f[k] == replies[j] by {
                let j = choose|j: int| 0 <= j < t.len() && #[trigger] f[k] == t[j];
                assert(f[k] == replies[j]);
            }
        }
    }
}

/// Files grouped by post, each group in the order of `files`.
pub open spec fn grouped_files(files: Seq<FileRow>) -> Map<i64, Seq<FileRow>>
    decreases files.len(),
{
    if files.len() == 0 {
        Map::empty()
    } else {
        let m = grouped_files(files.drop_last());
        let f = files.last();
        let group = if m.contains_key(f.post_id) {
            m[f.post_id]
        } else {
            Seq::empty()
        };
        m.insert(f.post_id, group.push(f))
    }
}

/// `m` holds exactly the groups `g`.
pub open spec fn holds_groups(m: Map<i64, Vec<FileRow>>, g: Map<i64, Seq<FileRow>>) -> bool {
    &&& m.dom() == g.dom()
    &&& forall|k: i64| #[trigger] g.contains_key(k) ==> m[k]@ == g[k]
}

/// `s` is the summary of thread `t` built from the rows read for the page.
pub open spec fn summarizes(
    s: ThreadSummary,
    t: ThreadRow,
    ops: Seq<PostRow>,
    replies: Seq<PostRow>,
    files: Seq<FileRow>,
    image_counts: Map<i64, i64>,
) -> bool {
    &&& is_op_for(s.op, ops, t)
    &&& s.replies@ == replies_for(replies, t.id)
    &&& holds_groups(s.files@, grouped_files(files))
    &&& s.image_count == (if image_counts.contains_key(t.id) {
        image_counts[t.id]
    } else {
        0
    })
    &&& s.sticky == t.sticky
    &&& s.locked == t.locked
    &&& s.post_count == t.post_count
}

/// The first post with id `id`.
fn find_op(ops: &[PostRow], id: i64) -> (res: Option<&PostRow>)
    ensures
        match res {
            Some(p) => find_post(ops@, id) == Some(*p),
            None => find_post(ops@, id) is None,
        },
{
    let mut i: usize = 0;
    assert(ops@.subrange(0, ops@.len() as int) =~= ops@);
    while i < ops.len()
        invariant
            i <= ops@.len(),
            find_post(ops@, id) == find_post(ops@.subrange(i as int, ops@.len() as int), id),
        decreases ops@.len() - i,
    {
        let ghost rest = ops@.subrange(i as int, ops@.len() as int);
        assert(rest[0] == ops@[i as int]);
        if ops[i].id == id {
            return Some(&ops[i]);
        }
        assert(rest.drop_first() =~= ops@.subrange(i + 1, ops@.len() as int));
        i = i + 1;
    }
    None
}

/// The replies of the thread numbered `id`.
fn thread_replies(replies: &[PostRow], id: i64) -> (res: Vec<PostRow>)
    ensures
        res@ == replies_for(replies@, id),
{
    let mut out: Vec<PostRow> = Vec::new();
    for i in 0..replies.len()
        invariant
            out@ == replies_for(replies@.take(i as int), id),
    {
        let ghost upto = replies@.take(i + 1);
        assert(upto.drop_last() =~= replies@.take(i as int));
        assert(upto.last() == replies@[i as int]);
        let keep = match replies[i].thread_id {
            Some(t) => t == id,
            None => false,
        };
        assert(keep == (replies@[i as int].thread_id == Some(id)));
        proof {
            reveal(Seq::filter);
        }
        if keep {
            out.push(replies[i].clone());
        }
        assert(replies_for(upto, id) == if keep {
            replies_for(upto.drop_last(), id).push(upto.last())
        } else {
            replies_for(upto.drop_last(), id)
        });
    }
    assert(replies@.take(replies@.len() as int) =~= replies@);
    out
}

/// Groups files by the post they belong to, keeping their order.
fn group_files(files: &[FileRow]) -> (res: HashMap<i64, Vec<FileRow>>)
    ensures
        holds_groups(res@, grouped_files(files@)),
{
    broadcast use vstd::std_specs::hash::group_hash_axioms;

    let mut m: HashMap<i64, Vec<FileRow>> = HashMap::new();
    for i in 0..files.len()
        invariant
            holds_groups(m@, grouped_files(files@.take(i as int))),
    {
        let ghost before = grouped_files(files@.take(i as int));
        let ghost upto = files@.take(i + 1);
        assert(upto.drop_last() =~= files@.take(i as int));
        assert(upto.last() == files@[i as int]);
        let f = files[i].clone();
        let key = f.post_id;
        let mut group = match m.remove(&key) {
            Some(g) => g,
            None => Vec::new(),
        };
        group.push(f);
        m.insert(key, group);
        proof {
            let after = grouped_files(upto);
            assert(m@.dom() =~= after.dom());
            assert forall|k: i64| #[trigger] after.contains_key(k) implies m@[k]@ == after[k] by {
                if k != key {
                    assert(before.contains_key(k));
                }
            }
        }
    }
    assert(files@.take(files@.len() as int) =~= files@);
    m
}

/// Puts together the summaries of the threads of a page from the rows read
/// for it: the opening posts, the last replies, the files of the shown posts,
/// and the image count of each thread.
pub fn summarize_threads(
    threads: &[ThreadRow],
    ops: &[PostRow],
    replies: &[PostRow],
    files: &[FileRow],
    image_counts: &HashMap<i64, i64>,
) -> (res: Vec<ThreadSummary>)
    ensures
        res@.len() == threads@.len(),
        forall|i: int|
            0 <= i < threads@.len() ==> summarizes(
                #[trigger] res@[i],
                threads@[i],
                ops@,
                replies@,
                files@,
                image_counts@,
            ),
{
    broadcast use vstd::std_specs::hash::group_hash_axioms;

    let files_by_post = group_files(files);
    let mut out: Vec<ThreadSummary> = Vec::new();
    for i in 0..threads.len()
        invariant
            holds_groups(files_by_post@, grouped_files(files@)),
            out@.len() == i,
            forall|j: int|
                0 <= j < i ==> summarizes(
                    #[trigger] out@[j],
                    threads@[j],
                    ops@,
                    replies@,
                    files@,
                    image_counts@,
                ),
    {
        let t = &threads[i];
        let op = match find_op(ops, t.id) {
            Some(p) => p.clone(),
            None => PostRow {
                id: t.id,
                thread_id: Some(t.id),
                board: t.board.clone(),
                is_op: true,
                name: None,
                tripcode: None,
                email: None,
                subject: None,
                body: String::new(),
                ip_hash: String::new(),
                created_at: t.created_at,
                deleted: true,
                delete_reason: None,
            },
        };
        let image_count = match image_counts.get(&t.id) {
            Some(n) => *n,
            None => 0,
        };
        let s = ThreadSummary {
            op,
            replies: thread_replies(replies, t.id),
            files: files_by_post.clone(),
            image_count,
            sticky: t.sticky,
            locked: t.locked,
            post_count: t.post_count,
        };
        out.push(s);
    }
    out
}

} // verus!
