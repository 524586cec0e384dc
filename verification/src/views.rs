//! What the pages show: board navigation, counters, page arithmetic, numbers
//! and the links built from them.
use vstd::prelude::*;

use crate::config::{BoardConfig, Config};
use crate::text::string_from_chars;

verus! {

/// Light view of a board, for navigation.
#[derive(Debug, Clone)]
pub struct BoardNav {
    pub short: String,
    pub title: String,
    pub description: String,
    pub nsfw: bool,
}

/// The data of the index page.
pub struct IndexTemplate {
    pub boards: Vec<BoardNav>,
}

/// The navigation entry of a board.
pub open spec fn nav_of(b: BoardConfig) -> (Seq<char>, Seq<char>, Seq<char>, bool) {
    (b.short@, b.title@, b.description@, b.nsfw)
}

/// The fields of a navigation entry.
pub open spec fn nav_fields(n: BoardNav) -> (Seq<char>, Seq<char>, Seq<char>, bool) {
    (n.short@, n.title@, n.description@, n.nsfw)
}

impl BoardNav {
    /// The navigation entry of a configured board.
    pub fn from_config(b: &BoardConfig) -> (res: Self)
        ensures
            nav_fields(res) == nav_of(*b),
    {
        BoardNav {
            short: b.short.clone(),
            title: b.title.clone(),
            description: b.description.clone(),
            nsfw: b.nsfw,
        }
    }

    /// Navigation entries of all configured boards, in order.
    pub fn all(cfg: &Config) -> (res: Vec<Self>)
        ensures
            res@.len() == cfg.boards@.len(),
            forall|i: int|
                0 <= i < res@.len() ==> nav_fields(#[trigger] res@[i]) == nav_of(cfg.boards@[i]),
    {
        let mut out: Vec<BoardNav> = Vec::new();
        for i in 0..cfg.boards.len()
            invariant
                out@.len() == i,
                forall|k: int|
                    0 <= k < i ==> nav_fields(#[trigger] out@[k]) == nav_of(cfg.boards@[k]),
        {
            out.push(BoardNav::from_config(&cfg.boards[i]));
        }
        out
    }
}

/// English plural suffix for a count: none for one, `s` otherwise.
pub fn plural(n: i64) -> (res: &'static str)
    ensures
        res@ == (if n == 1 { ""@ } else { "s"@ }),
{
    if n == 1 {
        ""
    } else {
        "s"
    }
}

// ------------------------------------------------------------------ numbers

/// The decimal digit of a value below ten.
pub open spec fn digit_char(d: int) -> char {
    (48 + d) as char
}

/// Decimal digits of a natural number, most significant first, no leading zeros.
pub open spec fn spec_digits(n: nat) -> Seq<char>
    decreases n,
{
    if n < 10 {
        seq![digit_char(n as int)]
    } else {
        spec_digits(n / 10).push(digit_char((n % 10) as int))
    }
}

/// Decimal text of an integer, with a minus sign when negative.
pub open spec fn spec_decimal(n: int) -> Seq<char> {
    if n < 0 {
        seq!['-'] + spec_digits((-n) as nat)
    } else {
        spec_digits(n as nat)
    }
}

fn digits_of(v: u64) -> (res: Vec<char>)
    ensures
        res@ == spec_digits(v as nat),
    decreases v,
{
    if v < 10 {
        let mut out = Vec::new();
        out.push(((48 + v) as u8) as char);
        out
    } else {
        let mut out = digits_of(v / 10);
        out.push(((48 + v % 10) as u8) as char);
        out
    }
}

/// Decimal text of an integer (what `{}` prints).
pub fn decimal(n: i64) -> (res: String)
    ensures
        res@ == spec_decimal(n as int),
{
    if n < 0 {
        let mag = (0i128 - n as i128) as u64;
        let mut out = Vec::new();
        out.push('-');
        let mut d = digits_of(mag);
        out.append(&mut d);
        string_from_chars(out.as_slice())
    } else {
        let d = digits_of(n as u64);
        string_from_chars(d.as_slice())
    }
}

// ------------------------------------------------------------------ pages

/// Number of pages for `total` threads at `per_page` a page (at least one).
pub open spec fn spec_page_count(total: int, per_page: int) -> int {
    if total == 0 {
        1
    } else {
        (total + per_page - 1) / per_page
    }
}

/// Number of pages of a board.
pub fn page_count(total: i64, per_page: i64) -> (res: i64)
    requires
        0 <= total,
        per_page > 0,
        total + per_page - 1 <= i64::MAX,
    ensures
        res == spec_page_count(total as int, per_page as int),
        res >= 1,
{
    if total == 0 {
        1
    } else {
        let t = total - 1 + per_page;
        assert(t / per_page >= 1) by (nonlinear_arith)
            requires
                t >= per_page,
                per_page > 0,
        ;
        t / per_page
    }
}

/// The pages hold every thread and no page is left empty: with `n` pages of
/// `per_page`, the threads before the last page are fewer than `total`, and `n`
/// full pages would hold them all.
pub proof fn lemma_pages_cover(total: int, per_page: int)
    requires
        0 <= total,
        per_page > 0,
    ensures
        spec_page_count(total, per_page) >= 1,
        total > 0 ==> (spec_page_count(total, per_page) - 1) * per_page < total,
        total <= spec_page_count(total, per_page) * per_page,
{
    if total > 0 {
        let n = (total + per_page - 1) / per_page;
        assert(n * per_page <= total + per_page - 1 < n * per_page + per_page) by (nonlinear_arith)
            requires
                n == (total + per_page - 1) / per_page,
                per_page > 0,
        ;
        assert((n - 1) * per_page == n * per_page - per_page) by (nonlinear_arith);
        assert(n >= 1) by (nonlinear_arith)
            requires
                n == (total + per_page - 1) / per_page,
                per_page > 0,
                total > 0,
        ;
    }
}

/// Whether a board page has a next one: some page follows page `page` of `pages`.
pub fn has_next_page(page: i64, pages: i64) -> (res: bool)
    ensures
        res == (page + 1 < pages),
{
    (page as i128) + 1 < pages as i128
}

/// A requested page brought into `0 ..= pages - 1`.
pub fn clamp_page(page: i64, pages: i64) -> (res: i64)
    requires
        pages >= 1,
    ensures
        res == if page < 0 { 0 } else if page > pages - 1 { pages - 1 } else { page as int },
{
    if page < 0 {
        0
    } else if page > pages - 1 {
        pages - 1
    } else {
        page
    }
}

/// Replies of a thread: all posts but the opening one, never negative.
pub fn reply_count(post_count: i32) -> (res: i64)
    ensures
        res == if post_count - 1 > 0 { post_count - 1 } else { 0 },
{
    if post_count as i64 - 1 > 0 {
        post_count as i64 - 1
    } else {
        0
    }
}

/// Replies hidden on the board page: those not among the shown ones, never negative.
pub fn omitted_replies(replies: i64, shown: usize) -> (res: i64)
    requires
        shown <= i64::MAX,
    ensures
        res == if replies - shown > 0 { replies - shown } else { 0 },
{
    let s = shown as i64;
    if replies > s {
        replies - s
    } else {
        0
    }
}

/// The counters under an opening post: `N repl[y|ies], M img[s]`.
pub open spec fn spec_counts(replies: int, images: int) -> Seq<char> {
    spec_decimal(replies) + " repl"@ + (if replies == 1 { ""@ } else { "s"@ }) + ", "@
        + spec_decimal(images) + " img"@ + (if images == 1 { ""@ } else { "s"@ })
}

/// The counters text of a thread.
pub fn counts_text(replies: i64, images: i64) -> (res: String)
    ensures
        res@ == spec_counts(replies as int, images as int),
{
    let mut s = decimal(replies);
    s.append(" repl");
    s.append(plural(replies));
    s.append(", ");
    let imgs = decimal(images);
    s.append(imgs.as_str());
    s.append(" img");
    s.append(plural(images));
    s
}

// ------------------------------------------------------------------ links

/// Base path of the moderation panel: `/mod`, or `/mod/<secret>` when set.
pub fn mod_base(config: &Config) -> (res: String)
    ensures
        res@ == match config.moderation.mod_secret_url {
            Some(s) => "/mod/"@ + s@,
            None => "/mod"@,
        },
{
    match &config.moderation.mod_secret_url {
        Some(s) => {
            let mut out = "/mod/".to_owned();
            out.append(s.as_str());
            out
        },
        None => "/mod".to_owned(),
    }
}

/// Link to a thread: `/<board>/thread/<id>`.
pub open spec fn spec_thread_url(board: Seq<char>, thread_id: int) -> Seq<char> {
    "/"@ + board + "/thread/"@ + spec_decimal(thread_id)
}

/// Link to a thread page.
pub fn thread_url(board: &str, thread_id: i64) -> (res: String)
    ensures
        res@ == spec_thread_url(board@, thread_id as int),
{
    let mut s = "/".to_owned();
    s.append(board);
    s.append("/thread/");
    let id = decimal(thread_id);
    s.append(id.as_str());
    s
}

/// Link to a post within its thread: `/<board>/thread/<thread>#p<post>`.
pub fn post_url(board: &str, thread_id: i64, post_id: i64) -> (res: String)
    ensures
        res@ == spec_thread_url(board@, thread_id as int) + "#p"@ + spec_decimal(post_id as int),
{
    let mut s = thread_url(board, thread_id);
    s.append("#p");
    let id = decimal(post_id);
    s.append(id.as_str());
    s
}

// ------------------------------------------------------------------ moments

/// The text chrono writes for a moment (microseconds since the Unix epoch, UTC)
/// in the form `%d/%m/%y %H:%M`; `None` where chrono holds no such moment.
pub uninterp spec fn moment_display(micros: i64) -> Option<Seq<char>>;

/// `DateTime::<Utc>::from_timestamp_micros`, then `format("%d/%m/%y %H:%M")`
/// written out. The contract names the text of exactly this moment.
#[verifier::external_body]
fn format_moment(micros: i64) -> (res: Option<String>)
    ensures
        match res {
            Some(t) => moment_display(micros) == Some(t@),
            None => moment_display(micros) is None,
        },
{
    match chrono::DateTime::<chrono::Utc>::from_timestamp_micros(micros) {
        Some(t) => Some(t.format("%d/%m/%y %H:%M").to_string()),
        None => None,
    }
}

/// A moment as the moderators' panel shows it (day/month/year hour:minute,
/// UTC); nothing for a moment chrono cannot hold, as for missing text.
pub fn moment_text(micros: i64) -> (res: String)
    ensures
        match moment_display(micros) {
            Some(t) => res@ == t,
            None => res@.len() == 0,
        },
{
    match format_moment(micros) {
        Some(t) => t,
        None => String::new(),
    }
}

/// When a ban ends, as the moderators' panel shows it: `permanent` for a ban
/// without end.
pub fn ban_expiry_text(expires: Option<i64>) -> (res: String)
    ensures
        match expires {
            None => res@ == "permanent"@,
            Some(m) => match moment_display(m) {
                Some(t) => res@ == t,
                None => res@.len() == 0,
            },
        },
{
    match expires {
        Some(m) => moment_text(m),
        None => "permanent".to_owned(),
    }
}

} // verus!
