//! Submitted forms: posts, reports, bans, jumps. Each is trimmed, checked and
//! normalized here before anything is stored.
use vstd::prelude::*;

use crate::error::AppError;
use crate::text::{chars_of, copy_range, string_from_chars, trim, trimmed};
use crate::tripcode::{spec_render, spec_split_name, split_name};

verus! {

/// Longest comment, in bytes.
pub const MAX_BODY: usize = 8000;
/// Longest name, in characters.
pub const MAX_NAME: usize = 100;
/// Longest subject, in characters.
pub const MAX_SUBJECT: usize = 100;
/// Longest email, in characters.
pub const MAX_EMAIL: usize = 100;

/// The post form.
#[derive(Debug)]
pub struct PostForm {
    pub name: Option<String>,
    pub email: Option<String>,
    pub subject: Option<String>,
    pub body: Option<String>,
}

/// The report form.
#[derive(Debug)]
pub struct ReportForm {
    pub reason: Option<String>,
    pub csrf: String,
}

/// The text of an optional field, empty where absent.
pub open spec fn field_text(f: Option<String>) -> Seq<char> {
    match f {
        Some(s) => s@,
        None => Seq::empty(),
    }
}

/// A field trimmed and cut to its first `max` characters.
pub open spec fn spec_truncate(s: Seq<char>, max: int) -> Seq<char> {
    let t = trim(s);
    if t.len() > max {
        t.take(max)
    } else {
        t
    }
}

/// A truncated field has at most `max` characters: the trimmed field where it
/// fits, else its first `max` characters.
pub proof fn lemma_truncate_bounded(s: Seq<char>, max: int)
    requires
        max >= 0,
    ensures
        spec_truncate(s, max).len() <= max,
        spec_truncate(s, max).len() == if trim(s).len() <= max {
            trim(s).len() as int
        } else {
            max
        },
        forall|i: int|
            0 <= i < spec_truncate(s, max).len() ==> #[trigger] spec_truncate(s, max)[i] == trim(
                s,
            )[i],
{
}

/// Trims a field and cuts it to at most `max` characters.
pub fn truncate(s: Option<&str>, max: usize) -> (res: String)
    ensures
        res@ == spec_truncate(
            match s {
                Some(t) => t@,
                None => Seq::empty(),
            },
            max as int,
        ),
{
    let t = match s {
        Some(t) => trimmed(t),
        None => String::new(),
    };
    let chars = chars_of(t.as_str());
    if chars.len() > max {
        let head = copy_range(chars.as_slice(), 0, max);
        assert(head@ =~= chars@.take(max as int));
        string_from_chars(head.as_slice())
    } else {
        t
    }
}

/// `None` for an empty string.
pub fn opt_str(s: String) -> (res: Option<String>)
    ensures
        match res {
            Some(r) => r@ == s@ && s@.len() > 0,
            None => s@.len() == 0,
        },
{
    if s.as_str().is_empty() {
        None
    } else {
        Some(s)
    }
}

/// The comment of a post form: trimmed, at most `MAX_BODY` bytes of UTF-8.
pub open spec fn body_too_long(form: PostForm) -> bool {
    vstd::utf8::encode_utf8(trim(field_text(form.body))).len() > MAX_BODY
}

/// Trims and bounds the fields of a post form: `(body, name, subject, email)`.
pub fn sanitize(form: &PostForm) -> (res: Result<(String, String, String, String), AppError>)
    ensures
        match res {
            Ok((body, name, subject, email)) => {
                &&& !body_too_long(*form)
                &&& body@ == trim(field_text(form.body))
                &&& name@ == spec_truncate(field_text(form.name), MAX_NAME as int)
                &&& subject@ == spec_truncate(field_text(form.subject), MAX_SUBJECT as int)
                &&& email@ == spec_truncate(field_text(form.email), MAX_EMAIL as int)
            },
            Err(e) => body_too_long(*form) && (e matches AppError::BadRequest(m) && m@
                == "Comment is too long"@),
        },
{
    let body = match &form.body {
        Some(b) => trimmed(b.as_str()),
        None => String::new(),
    };
    if body.as_str().as_bytes().len() > MAX_BODY {
        return Err(AppError::bad_request("Comment is too long"));
    }
    let name = truncate(
        match &form.name {
            Some(s) => Some(s.as_str()),
            None => None,
        },
        MAX_NAME,
    );
    let subject = truncate(
        match &form.subject {
            Some(s) => Some(s.as_str()),
            None => None,
        },
        MAX_SUBJECT,
    );
    let email = truncate(
        match &form.email {
            Some(s) => Some(s.as_str()),
            None => None,
        },
        MAX_EMAIL,
    );
    Ok((body, name, subject, email))
}

/// A post ready to be stored: its comment, and the optional fields, absent
/// where empty; the tripcode is rendered from the seed in the name field.
#[derive(Debug)]
pub struct NewPost {
    pub body: String,
    pub name: Option<String>,
    pub tripcode: Option<String>,
    pub email: Option<String>,
    pub subject: Option<String>,
}

/// `None` for empty text.
pub open spec fn nonempty(s: Seq<char>) -> Option<Seq<char>> {
    if s.len() > 0 {
        Some(s)
    } else {
        None
    }
}

/// `p` is the post made from `form`: the trimmed comment; the name field cut to
/// its bound and split into a name and a tripcode seed; email and subject cut
/// to their bounds; empty fields absent.
pub open spec fn is_post_of(p: NewPost, form: PostForm, secure_salt: Seq<char>) -> bool {
    let split = spec_split_name(spec_truncate(field_text(form.name), MAX_NAME as int));
    &&& p.body@ == trim(field_text(form.body))
    &&& p.name.deep_view() == nonempty(split.0)
    &&& p.tripcode.deep_view() == spec_render(split.1, split.2, secure_salt)
    &&& p.email.deep_view() == nonempty(spec_truncate(field_text(form.email), MAX_EMAIL as int))
    &&& p.subject.deep_view() == nonempty(
        spec_truncate(field_text(form.subject), MAX_SUBJECT as int),
    )
}

/// Checks a submitted post and prepares it for storing: the comment must not
/// be too long, nor empty.
pub fn prepare_post(form: &PostForm, secure_salt: &str) -> (res: Result<NewPost, AppError>)
    ensures
        if body_too_long(*form) {
            res matches Err(AppError::BadRequest(m)) && m@ == "Comment is too long"@
        } else if trim(field_text(form.body)).len() == 0 {
            res matches Err(AppError::BadRequest(m)) && m@ == "Comment is required"@
        } else {
            res matches Ok(p) && is_post_of(p, *form, secure_salt@)
        },
{
    let (body, name, subject, email) = match sanitize(form) {
        Ok(fields) => fields,
        Err(e) => {
            return Err(e);
        },
    };
    if body.as_str().is_empty() {
        return Err(AppError::bad_request("Comment is required"));
    }
    let (name, trips) = split_name(name.as_str());
    let tripcode = trips.render(secure_salt);
    Ok(NewPost {
        body,
        name: opt_str(name),
        tripcode,
        email: opt_str(email),
        subject: opt_str(subject),
    })
}

/// The length of the longest common prefix is all of `pat`: `pat` occurs in `s`
/// at `i`.
pub open spec fn occurs_at(s: Seq<char>, pat: Seq<char>, i: int) -> bool {
    0 <= i && i + pat.len() <= s.len() && s.subrange(i, i + pat.len()) == pat
}

/// `pat` occurs somewhere in `s`.
pub open spec fn occurs_in(s: Seq<char>, pat: Seq<char>) -> bool {
    exists|i: int| #[trigger] occurs_at(s, pat, i)
}

/// Whether `ps` occurs in `cs` at `i`.
fn matches_at(cs: &Vec<char>, ps: &Vec<char>, i: usize) -> (res: bool)
    requires
        i + ps@.len() <= cs@.len(),
    ensures
        res == (cs@.subrange(i as int, i + ps@.len()) == ps@),
{
    let n = cs.len();
    for k in 0..ps.len()
        invariant
            n == cs@.len(),
            i + ps@.len() <= cs@.len(),
            forall|m: int| 0 <= m < k ==> cs@[i + m] == ps@[m],
    {
        if cs[i + k] != ps[k] {
            assert(cs@.subrange(i as int, i + ps@.len())[k as int] != ps@[k as int]);
            return false;
        }
    }
    assert(cs@.subrange(i as int, i + ps@.len()) =~= ps@);
    true
}

/// Whether `pat` occurs in `s`.
fn contains_text(s: &str, pat: &str) -> (res: bool)
    ensures
        res == occurs_in(s@, pat@),
{
    let cs = chars_of(s);
    let ps = chars_of(pat);
    if ps.len() > cs.len() {
        assert forall|i: int| !#[trigger] occurs_at(s@, pat@, i) by {}
        return false;
    }
    let last = cs.len() - ps.len();
    let mut i: usize = 0;
    loop
        invariant
            cs@ == s@,
            ps@ == pat@,
            ps@.len() <= cs@.len(),
            last == cs@.len() - ps@.len(),
            i <= last,
            forall|j: int| 0 <= j < i ==> !#[trigger] occurs_at(s@, pat@, j),
        ensures
            i == last,
            forall|j: int| 0 <= j <= i ==> !#[trigger] occurs_at(s@, pat@, j),
        decreases last - i,
    {
        if matches_at(&cs, &ps, i) {
            assert(occurs_at(s@, pat@, i as int));
            return true;
        }
        assert(!occurs_at(s@, pat@, i as int));
        if i == last {
            break;
        }
        i = i + 1;
    }
    assert forall|j: int| !#[trigger] occurs_at(s@, pat@, j) by {
        if 0 <= j && j + pat@.len() <= s@.len() {
            assert(j <= i);
        }
    }
    false
}

/// The answer to a reply that could not be stored, from the failure's text: a
/// locked thread is a bad request, a missing one is not found, anything else
/// is internal.
pub fn reply_failure(msg: &str) -> (res: AppError)
    ensures
        if occurs_in(msg@, "locked"@) {
            res matches AppError::BadRequest(m) && m@ == "Thread is locked"@
        } else if occurs_in(msg@, "not found"@) {
            res is NotFound
        } else {
            res matches AppError::Internal(m) && m@ == msg@
        },
{
    if contains_text(msg, "locked") {
        AppError::bad_request("Thread is locked")
    } else if contains_text(msg, "not found") {
        AppError::NotFound
    } else {
        AppError::Internal(msg.to_owned())
    }
}

/// An optional field trimmed, and absent where it is then empty.
pub open spec fn spec_nonempty_trimmed(f: Option<Seq<char>>) -> Option<Seq<char>> {
    match f {
        Some(s) => if trim(s).len() > 0 {
            Some(trim(s))
        } else {
            None
        },
        None => None,
    }
}

/// Trims an optional field and drops it where it is then empty.
pub fn nonempty_trimmed(f: &Option<String>) -> (res: Option<String>)
    ensures
        res.deep_view() == spec_nonempty_trimmed(f.deep_view()),
{
    match f {
        Some(s) => {
            let t = trimmed(s.as_str());
            if t.as_str().is_empty() {
                None
            } else {
                Some(t)
            }
        },
        None => None,
    }
}

/// The reason given in a report form: trimmed, absent where empty.
pub fn report_reason(form: &ReportForm) -> (res: Option<String>)
    ensures
        res.deep_view() == spec_nonempty_trimmed(form.reason.deep_view()),
{
    nonempty_trimmed(&form.reason)
}

/// The post number asked for by the jump form: required and positive.
pub fn jump_target(n: Option<i64>) -> (res: Result<i64, AppError>)
    ensures
        match n {
            Some(id) if id > 0 => res == Ok::<i64, AppError>(id),
            _ => res matches Err(AppError::BadRequest(m)) && m@ == "Post number is required"@,
        },
{
    match n {
        Some(id) if id > 0 => Ok(id),
        _ => Err(AppError::bad_request("Post number is required")),
    }
}

/// The moderator's ban form.
#[derive(Debug)]
pub struct BanForm {
    pub ip_hash: Option<String>,
    pub file_hash: Option<String>,
    pub reason: String,
    pub hours: Option<i64>,
    pub csrf: String,
}

/// A checked ban: what to ban, why, for how many hours (none: for good), and
/// the target to log.
#[derive(Debug)]
pub struct BanRequest {
    pub ip_hash: Option<String>,
    pub file_hash: Option<String>,
    pub reason: String,
    pub hours: Option<i64>,
    pub target: String,
}

/// Checks a ban form: a reason is required, and an IP hash or a file hash;
/// both are trimmed, a duration counts only when positive, and the logged target
/// is the IP hash, else the file hash.
pub fn ban_request(form: &BanForm) -> (res: Result<BanRequest, AppError>)
    ensures
        ({
            let reason = trim(form.reason@);
            let ip = spec_nonempty_trimmed(form.ip_hash.deep_view());
            let file = spec_nonempty_trimmed(form.file_hash.deep_view());
            if reason.len() == 0 {
                res matches Err(AppError::BadRequest(m)) && m@ == "Reason is required"@
            } else if ip is None && file is None {
                res matches Err(AppError::BadRequest(m)) && m@
                    == "IP hash or file hash is required"@
            } else {
                res matches Ok(b) && b.reason@ == reason && b.ip_hash.deep_view() == ip
                    && b.file_hash.deep_view() == file && b.hours == match form.hours {
                    Some(h) => if h > 0 {
                        Some(h)
                    } else {
                        None
                    },
                    None => None,
                } && b.target@ == match ip {
                    Some(t) => t,
                    None => file->0,
                }
            }
        }),
{
    let reason = trimmed(form.reason.as_str());
    if reason.as_str().is_empty() {
        return Err(AppError::bad_request("Reason is required"));
    }
    let ip_hash = nonempty_trimmed(&form.ip_hash);
    let file_hash = nonempty_trimmed(&form.file_hash);
    if ip_hash.is_none() && file_hash.is_none() {
        return Err(AppError::bad_request("IP hash or file hash is required"));
    }
    let hours = match form.hours {
        Some(h) => if h > 0 {
            Some(h)
        } else {
            None
        },
        None => None,
    };
    let target = match &ip_hash {
        Some(t) => t.clone(),
        None => match &file_hash {
            Some(t) => t.clone(),
            None => String::new(),
        },
    };
    Ok(BanRequest { ip_hash, file_hash, reason, hours, target })
}

} // verus!
