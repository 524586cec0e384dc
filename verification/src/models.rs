//! Rows of the database, as the library sees them. Moments are held as
//! microseconds since the Unix epoch, UTC.
use vstd::prelude::*;

verus! {

/// A copy of an optional text.
fn copy_text(t: &Option<String>) -> (res: Option<String>)
    ensures
        res == *t,
{
    match t {
        Some(s) => Some(s.clone()),
        None => None,
    }
}

/// A thread; its id is the id of its opening post.
#[derive(Debug)]
pub struct ThreadRow {
    pub id: i64,
    pub board: String,
    pub created_at: i64,
    pub last_bump: i64,
    pub sticky: bool,
    pub locked: bool,
    pub post_count: i32,
    pub deleted: bool,
}

impl Clone for ThreadRow {
    fn clone(&self) -> (res: Self)
        ensures
            res == *self,
    {
        ThreadRow {
            id: self.id,
            board: self.board.clone(),
            created_at: self.created_at,
            last_bump: self.last_bump,
            sticky: self.sticky,
            locked: self.locked,
            post_count: self.post_count,
            deleted: self.deleted,
        }
    }
}

/// A post; its number (id) is global across boards.
#[derive(Debug)]
pub struct PostRow {
    pub id: i64,
    pub thread_id: Option<i64>,
    pub board: String,
    pub is_op: bool,
    pub name: Option<String>,
    pub tripcode: Option<String>,
    pub email: Option<String>,
    pub subject: Option<String>,
    pub body: String,
    pub ip_hash: String,
    pub created_at: i64,
    pub deleted: bool,
    pub delete_reason: Option<String>,
}

impl Clone for PostRow {
    fn clone(&self) -> (res: Self)
        ensures
            res == *self,
    {
        PostRow {
            id: self.id,
            thread_id: self.thread_id,
            board: self.board.clone(),
            is_op: self.is_op,
            name: copy_text(&self.name),
            tripcode: copy_text(&self.tripcode),
            email: copy_text(&self.email),
            subject: copy_text(&self.subject),
            body: self.body.clone(),
            ip_hash: self.ip_hash.clone(),
            created_at: self.created_at,
            deleted: self.deleted,
            delete_reason: copy_text(&self.delete_reason),
        }
    }
}

/// A file attached to a post.
#[derive(Debug)]
pub struct FileRow {
    pub id: i64,
    pub post_id: i64,
    pub original_name: String,
    pub stored_name: String,
    pub mime: String,
    pub size: i64,
    pub width: Option<i32>,
    pub height: Option<i32>,
    pub sha256: String,
    pub spoiler: bool,
    pub deleted: bool,
}

impl Clone for FileRow {
    fn clone(&self) -> (res: Self)
        ensures
            res == *self,
    {
        FileRow {
            id: self.id,
            post_id: self.post_id,
            original_name: self.original_name.clone(),
            stored_name: self.stored_name.clone(),
            mime: self.mime.clone(),
            size: self.size,
            width: self.width,
            height: self.height,
            sha256: self.sha256.clone(),
            spoiler: self.spoiler,
            deleted: self.deleted,
        }
    }
}

} // verus!
