//! Uploaded files: type detection by magic bytes, file name cleaning, the
//! checks an upload must pass, stored names, and image size limits.
use vstd::prelude::*;

use crate::config::{BoardConfig, MediaConfig};
use crate::error::AppError;
use crate::hashes::{is_hex_char, lemma_hex_shape, spec_hex, to_hex};
use crate::text::{
    chars_of, copy_range, is_control, is_control_char, lemma_trim_keeps, lemma_utf8_at_least_chars,
    string_from_chars, trim, trim_chars,
};
use crate::tripcode::file_hash;

verus! {

/// The category of a file, with its MIME type.
#[derive(Debug, Clone, Copy, PartialEq)]
pub enum Kind {
    Image(&'static str),
    Video(&'static str),
}

/// A file that passed the first checks (magic bytes, extension, size).
pub struct Validated {
    pub data: Vec<u8>,
    pub original_name: String,
    pub kind: Kind,
    pub spoiler: bool,
}

/// What is stored of a saved file (for the database).
pub struct Stored {
    pub original_name: String,
    pub stored_name: String,
    pub thumb_name: String,
    pub mime: String,
    pub size: i64,
    pub width: Option<i32>,
    pub height: Option<i32>,
    pub sha256: String,
    pub spoiler: bool,
}

/// Whether a kind is a video, and its MIME type.
pub open spec fn kind_parts(k: Kind) -> (bool, Seq<char>) {
    match k {
        Kind::Image(m) => (false, m@),
        Kind::Video(m) => (true, m@),
    }
}

/// The canonical extension of a kind (what `allowed_extensions` lists).
pub open spec fn spec_canonical_ext(k: Kind) -> Seq<char> {
    let (video, m) = kind_parts(k);
    if !video {
        if m == "image/jpeg"@ {
            "jpg"@
        } else if m == "image/png"@ {
            "png"@
        } else if m == "image/webp"@ {
            "webp"@
        } else if m == "image/gif"@ {
            "gif"@
        } else {
            "img"@
        }
    } else {
        if m == "video/webm"@ {
            "webm"@
        } else if m == "video/mp4"@ {
            "mp4"@
        } else {
            "video"@
        }
    }
}

fn str_eq(a: &str, b: &str) -> (res: bool)
    ensures
        res == (a@ == b@),
{
    a.to_owned() == b.to_owned()
}

impl Kind {
    /// Canonical extension (checked against `allowed_extensions`).
    pub fn canonical_ext(self) -> (res: &'static str)
        ensures
            res@ == spec_canonical_ext(self),
    {
        match self {
            Kind::Image(m) => {
                if str_eq(m, "image/jpeg") {
                    "jpg"
                } else if str_eq(m, "image/png") {
                    "png"
                } else if str_eq(m, "image/webp") {
                    "webp"
                } else if str_eq(m, "image/gif") {
                    "gif"
                } else {
                    "img"
                }
            },
            Kind::Video(m) => {
                if str_eq(m, "video/webm") {
                    "webm"
                } else if str_eq(m, "video/mp4") {
                    "mp4"
                } else {
                    "video"
                }
            },
        }
    }

    /// The MIME type.
    pub fn mime(self) -> (res: &'static str)
        ensures
            res@ == kind_parts(self).1,
    {
        match self {
            Kind::Image(m) => m,
            Kind::Video(m) => m,
        }
    }

    /// Whether the file is a video.
    pub fn is_video(self) -> (res: bool)
        ensures
            res == kind_parts(self).0,
    {
        match self {
            Kind::Image(_) => false,
            Kind::Video(_) => true,
        }
    }
}

// ------------------------------------------------------------------ detection

/// The MIME type that `infer` recognizes from the first bytes of some data.
pub uninterp spec fn inferred_mime(data: Seq<u8>) -> Option<Seq<char>>;

/// `infer::get` and the found type's `mime_type`: the contract names the
/// answer for exactly these bytes.
#[verifier::external_body]
fn infer_mime(data: &[u8]) -> (res: Option<&'static str>)
    ensures
        match res {
            Some(m) => inferred_mime(data@) == Some(m@),
            None => inferred_mime(data@) is None,
        },
{
    infer::get(data).map(|t| t.mime_type())
}

/// The kind of a recognized MIME type: the four image and two video types
/// uploads may have.
pub open spec fn kind_of_mime(m: Seq<char>) -> Option<(bool, Seq<char>)> {
    if m == "image/jpeg"@ || m == "image/png"@ || m == "image/webp"@ || m == "image/gif"@ {
        Some((false, m))
    } else if m == "video/webm"@ || m == "video/mp4"@ {
        Some((true, m))
    } else {
        None
    }
}

/// The kind of a file by its magic bytes.
pub open spec fn spec_detect(data: Seq<u8>) -> Option<(bool, Seq<char>)> {
    match inferred_mime(data) {
        Some(m) => kind_of_mime(m),
        None => None,
    }
}

/// The view of a detected kind.
pub open spec fn opt_kind_parts(k: Option<Kind>) -> Option<(bool, Seq<char>)> {
    match k {
        Some(k) => Some(kind_parts(k)),
        None => None,
    }
}

/// The kind of a recognized MIME type.
pub fn kind_for_mime(m: &str) -> (res: Option<Kind>)
    ensures
        opt_kind_parts(res) == kind_of_mime(m@),
{
    if str_eq(m, "image/jpeg") {
        Some(Kind::Image("image/jpeg"))
    } else if str_eq(m, "image/png") {
        Some(Kind::Image("image/png"))
    } else if str_eq(m, "image/webp") {
        Some(Kind::Image("image/webp"))
    } else if str_eq(m, "image/gif") {
        Some(Kind::Image("image/gif"))
    } else if str_eq(m, "video/webm") {
        Some(Kind::Video("video/webm"))
    } else if str_eq(m, "video/mp4") {
        Some(Kind::Video("video/mp4"))
    } else {
        None
    }
}

/// Determines the type of a file by its magic bytes.
pub fn detect(data: &[u8]) -> (res: Option<Kind>)
    ensures
        opt_kind_parts(res) == spec_detect(data@),
{
    match infer_mime(data) {
        Some(m) => kind_for_mime(m),
        None => None,
    }
}

// ------------------------------------------------------------------ file names

/// Whether a character separates path components (`/` or `\`).
pub open spec fn is_path_sep(c: char) -> bool {
    c == '/' || c == '\\'
}

/// The text after the last path separator (all of it when there is none).
pub open spec fn last_segment(s: Seq<char>) -> Seq<char>
    decreases s.len(),
{
    if s.len() == 0 {
        s
    } else if is_path_sep(s.last()) {
        Seq::empty()
    } else {
        last_segment(s.drop_last()).push(s.last())
    }
}

/// `s` without its control characters.
pub open spec fn strip_controls(s: Seq<char>) -> Seq<char>
    decreases s.len(),
{
    if s.len() == 0 {
        s
    } else if is_control_char(s.last()) {
        strip_controls(s.drop_last())
    } else {
        strip_controls(s.drop_last()).push(s.last())
    }
}

/// A cleaned file name: the last path component, without control characters,
/// trimmed; cut to its first 200 characters when longer than 200 bytes.
pub open spec fn spec_sanitize_filename(name: Seq<char>) -> Seq<char> {
    let t = trim(strip_controls(last_segment(name)));
    if vstd::utf8::encode_utf8(t).len() > 200 && t.len() > 200 {
        t.take(200)
    } else {
        t
    }
}

/// Cleans a file name: base name only, no control characters, bounded length.
pub fn sanitize_filename(name: &str) -> (res: String)
    ensures
        res@ == spec_sanitize_filename(name@),
{
    let chars = chars_of(name);
    let n = chars.len();
    let mut start: usize = 0;
    for i in 0..n
        invariant
            n == chars@.len(),
            start <= i,
            last_segment(chars@.subrange(0, i as int)) == chars@.subrange(start as int, i as int),
    {
        assert(chars@.subrange(0, i + 1).drop_last() =~= chars@.subrange(0, i as int));
        if chars[i] == '/' || chars[i] == '\\' {
            start = i + 1;
            assert(chars@.subrange(start as int, i + 1) =~= Seq::<char>::empty());
        } else {
            assert(chars@.subrange(start as int, i + 1) =~= chars@.subrange(
                start as int,
                i as int,
            ).push(chars@[i as int]));
        }
    }
    assert(chars@.subrange(0, n as int) =~= chars@);
    let mut kept: Vec<char> = Vec::new();
    for i in start..n
        invariant
            n == chars@.len(),
            start <= n,
            kept@ == strip_controls(chars@.subrange(start as int, i as int)),
    {
        assert(chars@.subrange(start as int, i + 1).drop_last() =~= chars@.subrange(
            start as int,
            i as int,
        ));
        if !is_control(chars[i]) {
            kept.push(chars[i]);
        }
    }
    let t = trim_chars(kept.as_slice());
    let text = string_from_chars(t.as_slice());
    if text.as_str().as_bytes().len() > 200 && t.len() > 200 {
        let head = copy_range(t.as_slice(), 0, 200);
        assert(head@ =~= t@.take(200));
        string_from_chars(head.as_slice())
    } else {
        text
    }
}

/// A cleaned file name holds no path separator and no control character, and
/// at most 200 characters.
pub proof fn lemma_sanitized_name_shape(name: Seq<char>)
    ensures
        spec_sanitize_filename(name).len() <= 200,
        forall|i: int|
            0 <= i < spec_sanitize_filename(name).len() ==> !is_path_sep(
                #[trigger] spec_sanitize_filename(name)[i],
            ) && !is_control_char(spec_sanitize_filename(name)[i]),
{
    let seg = last_segment(name);
    lemma_last_segment_has_no_sep(name);
    let kept = strip_controls(seg);
    lemma_strip_controls_clean(seg);
    let p = |c: char| !is_path_sep(c) && !is_control_char(c);
    assert forall|i: int| 0 <= i < kept.len() implies p(#[trigger] kept[i]) by {}
    lemma_trim_keeps(kept, p);
    let t = trim(kept);
    lemma_utf8_at_least_chars(t);
    let r = spec_sanitize_filename(name);
    assert forall|i: int| 0 <= i < r.len() implies !is_path_sep(#[trigger] r[i])
        && !is_control_char(r[i]) by {
        assert(r[i] == t[i]);
        assert(p(t[i]));
    }
}

/// The cleaned name comes from the last path component: whatever directories
/// precede a `/` or `\`, the name is that of what follows the last one.
pub proof fn lemma_sanitize_takes_last_component(dirs: Seq<char>, sep: char, base: Seq<char>)
    requires
        is_path_sep(sep),
        forall|i: int| 0 <= i < base.len() ==> !is_path_sep(#[trigger] base[i]),
    ensures
        spec_sanitize_filename(dirs + seq![sep] + base) == spec_sanitize_filename(base),
{
    lemma_last_segment_no_sep_suffix(dirs + seq![sep], base);
    lemma_last_segment_no_sep_suffix(Seq::empty(), base);
    assert(Seq::<char>::empty() + base =~= base);
    assert((dirs + seq![sep]).drop_last() =~= dirs);
}

/// A name with no path separator, no control character, no surrounding
/// whitespace and at most 200 characters is kept as it is.
pub proof fn lemma_sanitize_keeps_clean_name(name: Seq<char>)
    requires
        forall|i: int| 0 <= i < name.len() ==> !is_path_sep(#[trigger] name[i]) && !is_control_char(
            name[i],
        ),
        trim(name) == name,
        name.len() <= 200,
    ensures
        spec_sanitize_filename(name) == name,
{
    lemma_last_segment_no_sep_suffix(Seq::empty(), name);
    assert(Seq::<char>::empty() + name =~= name);
    lemma_strip_controls_keeps_clean(name);
}

/// After a separator, the last component is all that follows, where that holds
/// no separator.
proof fn lemma_last_segment_no_sep_suffix(p: Seq<char>, base: Seq<char>)
    requires
        p.len() == 0 || is_path_sep(p.last()),
        forall|i: int| 0 <= i < base.len() ==> !is_path_sep(#[trigger] base[i]),
    ensures
        last_segment(p + base) == base,
    decreases base.len(),
{
    if base.len() == 0 {
        assert(p + base =~= p);
        if p.len() > 0 {
            assert(last_segment(p) == Seq::<char>::empty());
        }
        assert(base =~= Seq::<char>::empty());
    } else {
        let front = base.drop_last();
        assert forall|i: int| 0 <= i < front.len() implies !is_path_sep(#[trigger] front[i]) by {
            assert(front[i] == base[i]);
        }
        lemma_last_segment_no_sep_suffix(p, front);
        assert((p + base).drop_last() =~= p + front);
        assert((p + base).last() == base.last());
        assert(!is_path_sep(base[base.len() - 1]));
        assert(front.push(base.last()) =~= base);
    }
}

proof fn lemma_strip_controls_keeps_clean(s: Seq<char>)
    requires
        forall|i: int| 0 <= i < s.len() ==> !is_control_char(#[trigger] s[i]),
    ensures
        strip_controls(s) == s,
    decreases s.len(),
{
    if s.len() > 0 {
        let t = s.drop_last();
        assert forall|i: int| 0 <= i < t.len() implies !is_control_char(#[trigger] t[i]) by {
            assert(t[i] == s[i]);
        }
        lemma_strip_controls_keeps_clean(t);
        assert(!is_control_char(s[s.len() - 1]));
        assert(t.push(s.last()) =~= s);
    }
}

proof fn lemma_last_segment_has_no_sep(s: Seq<char>)
    ensures
        forall|i: int|
            0 <= i < last_segment(s).len() ==> !is_path_sep(#[trigger] last_segment(s)[i]),
    decreases s.len(),
{
    if s.len() > 0 && !is_path_sep(s.last()) {
        let prev = last_segment(s.drop_last());
        lemma_last_segment_has_no_sep(s.drop_last());
        let r = prev.push(s.last());
        assert(last_segment(s) == r);
        assert forall|i: int| 0 <= i < r.len() implies !is_path_sep(#[trigger] r[i]) by {
            if i < prev.len() {
                assert(r[i] == prev[i]);
            }
        }
    }
}

proof fn lemma_strip_controls_clean(s: Seq<char>)
    requires
        forall|i: int| 0 <= i < s.len() ==> !is_path_sep(#[trigger] s[i]),
    ensures
        forall|i: int|
            0 <= i < strip_controls(s).len() ==> !is_path_sep(#[trigger] strip_controls(s)[i])
                && !is_control_char(strip_controls(s)[i]),
    decreases s.len(),
{
    if s.len() > 0 {
        let t = s.drop_last();
        assert forall|i: int| 0 <= i < t.len() implies !is_path_sep(#[trigger] t[i]) by {
            assert(t[i] == s[i]);
        }
        lemma_strip_controls_clean(t);
        if !is_control_char(s.last()) {
            let prev = strip_controls(t);
            let r = prev.push(s.last());
            assert(strip_controls(s) == r);
            assert forall|i: int| 0 <= i < r.len() implies !is_path_sep(#[trigger] r[i])
                && !is_control_char(r[i]) by {
                if i < prev.len() {
                    assert(r[i] == prev[i]);
                }
            }
        }
    }
}

// ------------------------------------------------------------------ checks

/// Whether `exts` lists `ext`.
pub open spec fn lists(exts: Seq<String>, ext: Seq<char>) -> bool {
    exists|i: int| 0 <= i < exts.len() && #[trigger] exts[i]@ == ext
}

fn lists_ext(exts: &Vec<String>, ext: &str) -> (res: bool)
    ensures
        res == lists(exts@, ext@),
{
    let key = ext.to_owned();
    for i in 0..exts.len()
        invariant
            key@ == ext@,
            forall|j: int| 0 <= j < i ==> #[trigger] exts@[j]@ != ext@,
    {
        if exts[i] == key {
            assert(exts@[i as int]@ == ext@);
            return true;
        }
    }
    false
}

/// The answer to an upload, given its detected kind: the first failing check, in
/// order (empty name, unknown type, extension not allowed, too large, empty), as
/// the message of a bad request; `None` when all pass.
pub open spec fn upload_problem(
    data: Seq<u8>,
    filename: Seq<char>,
    exts: Seq<String>,
    max_size: u64,
    kind: Option<(bool, Seq<char>)>,
) -> Option<Seq<char>> {
    if spec_sanitize_filename(filename).len() == 0 {
        Some("File name is empty"@)
    } else if kind is None {
        Some("Unsupported or corrupt file type"@)
    } else if !lists(exts, ext_of_parts(kind->0)) {
        Some("File type ."@ + ext_of_parts(kind->0) + " is not allowed on this board"@)
    } else if data.len() > max_size {
        Some("File is too large"@)
    } else if data.len() == 0 {
        Some("File is empty"@)
    } else {
        None
    }
}

/// The canonical extension of a (video, MIME) pair.
pub open spec fn ext_of_parts(p: (bool, Seq<char>)) -> Seq<char> {
    if !p.0 {
        if p.1 == "image/jpeg"@ {
            "jpg"@
        } else if p.1 == "image/png"@ {
            "png"@
        } else if p.1 == "image/webp"@ {
            "webp"@
        } else if p.1 == "image/gif"@ {
            "gif"@
        } else {
            "img"@
        }
    } else {
        if p.1 == "video/webm"@ {
            "webm"@
        } else if p.1 == "video/mp4"@ {
            "mp4"@
        } else {
            "video"@
        }
    }
}

/// The outcome of `validate_detected`, as views.
pub open spec fn validation_matches(
    res: Result<Validated, AppError>,
    data: Seq<u8>,
    filename: Seq<char>,
    board: BoardConfig,
    spoiler: bool,
    kind: Option<(bool, Seq<char>)>,
) -> bool {
    match upload_problem(data, filename, board.allowed_extensions@, board.max_file_size, kind) {
        Some(msg) => res matches Err(AppError::BadRequest(m)) && m@ == msg,
        None => res matches Ok(v) && v.data@ == data && v.original_name@ == spec_sanitize_filename(
            filename,
        ) && Some(kind_parts(v.kind)) == kind && v.spoiler == spoiler,
    }
}

/// An accepted upload was recognised by its content, has an extension the
/// board allows, is neither empty nor over the board's size limit, and keeps a
/// clean, non-empty name.
pub proof fn lemma_accepted_upload(
    res: Result<Validated, AppError>,
    data: Seq<u8>,
    filename: Seq<char>,
    board: BoardConfig,
    spoiler: bool,
    kind: Option<(bool, Seq<char>)>,
)
    requires
        validation_matches(res, data, filename, board, spoiler, kind),
        res is Ok,
    ensures
        kind is Some,
        lists(board.allowed_extensions@, ext_of_parts(kind->0)),
        0 < data.len() <= board.max_file_size,
        res.unwrap().original_name@.len() > 0,
        res.unwrap().original_name@ == spec_sanitize_filename(filename),
{
}

/// A board allows an extension when any entry of its list is that extension,
/// wherever in the list it stands; and only then.
pub proof fn lemma_listed_anywhere(exts: Seq<String>, ext: Seq<char>, i: int)
    ensures
        0 <= i < exts.len() && exts[i]@ == ext ==> lists(exts, ext),
        !lists(exts, ext) ==> forall|j: int| 0 <= j < exts.len() ==> #[trigger] exts[j]@ != ext,
{
}

/// An upload passes every check when its name keeps some text, its content is
/// a recognized type whose extension the board lists (at any position), and it
/// is neither empty nor over the board's size limit.
pub proof fn lemma_upload_accepted(
    data: Seq<u8>,
    filename: Seq<char>,
    exts: Seq<String>,
    max_size: u64,
    kind: Option<(bool, Seq<char>)>,
    i: int,
)
    requires
        spec_sanitize_filename(filename).len() > 0,
        kind is Some,
        0 <= i < exts.len(),
        exts[i]@ == ext_of_parts(kind->0),
        0 < data.len() <= max_size,
    ensures
        upload_problem(data, filename, exts, max_size, kind) is None,
{
    lemma_listed_anywhere(exts, ext_of_parts(kind->0), i);
}

/// The six types uploads may have, by their MIME type, and the extension each
/// is checked under: JPEG, PNG, WebP and GIF images, WebM and MP4 videos.
/// Content of any other type is refused.
pub proof fn lemma_detected_types(data: Seq<u8>)
    ensures
        inferred_mime(data) == Some("image/jpeg"@) ==> spec_detect(data) == Some(
            (false, "image/jpeg"@),
        ) && ext_of_parts((false, "image/jpeg"@)) == "jpg"@,
        inferred_mime(data) == Some("image/png"@) ==> spec_detect(data) == Some(
            (false, "image/png"@),
        ) && ext_of_parts((false, "image/png"@)) == "png"@,
        inferred_mime(data) == Some("image/webp"@) ==> spec_detect(data) == Some(
            (false, "image/webp"@),
        ) && ext_of_parts((false, "image/webp"@)) == "webp"@,
        inferred_mime(data) == Some("image/gif"@) ==> spec_detect(data) == Some(
            (false, "image/gif"@),
        ) && ext_of_parts((false, "image/gif"@)) == "gif"@,
        inferred_mime(data) == Some("video/webm"@) ==> spec_detect(data) == Some(
            (true, "video/webm"@),
        ) && ext_of_parts((true, "video/webm"@)) == "webm"@,
        inferred_mime(data) == Some("video/mp4"@) ==> spec_detect(data) == Some(
            (true, "video/mp4"@),
        ) && ext_of_parts((true, "video/mp4"@)) == "mp4"@,
        match inferred_mime(data) {
            Some(m) => m != "image/jpeg"@ && m != "image/png"@ && m != "image/webp"@ && m
                != "image/gif"@ && m != "video/webm"@ && m != "video/mp4"@ ==> spec_detect(data)
                is None,
            None => spec_detect(data) is None,
        },
{
    reveal_strlit("image/jpeg");
    reveal_strlit("image/png");
    reveal_strlit("image/webp");
    reveal_strlit("image/gif");
    reveal_strlit("video/webm");
    reveal_strlit("video/mp4");
    reveal_strlit("jpg");
    reveal_strlit("png");
    reveal_strlit("webp");
    reveal_strlit("gif");
    reveal_strlit("webm");
    reveal_strlit("mp4");
    let jpeg = "image/jpeg"@;
    let png = "image/png"@;
    let webp = "image/webp"@;
    let gif = "image/gif"@;
    let webm = "video/webm"@;
    let mp4 = "video/mp4"@;
    assert(png.len() != jpeg.len() && gif.len() != jpeg.len() && mp4.len() != webm.len());
    assert(webp[6] != jpeg[6] && gif[6] != png[6]);
    assert(webm[0] != jpeg[0] && webm[0] != png[0] && webm[0] != webp[0] && webm[0] != gif[0]);
    assert(mp4[0] != jpeg[0] && mp4[0] != png[0] && mp4[0] != webp[0] && mp4[0] != gif[0]);
}

/// First checks of an upload whose kind was detected already.
pub fn validate_detected(
    data: Vec<u8>,
    filename: &str,
    board: &BoardConfig,
    spoiler: bool,
    kind: Option<Kind>,
) -> (res: Result<Validated, AppError>)
    ensures
        validation_matches(res, data@, filename@, *board, spoiler, opt_kind_parts(kind)),
{
    let original_name = sanitize_filename(filename);
    if original_name.as_str().is_empty() {
        return Err(AppError::bad_request("File name is empty"));
    }
    let kind = match kind {
        Some(k) => k,
        None => {
            return Err(AppError::bad_request("Unsupported or corrupt file type"));
        },
    };
    let ext = kind.canonical_ext();
    assert(ext@ == ext_of_parts(kind_parts(kind)));
    if !lists_ext(&board.allowed_extensions, ext) {
        let mut msg = "File type .".to_owned();
        msg.append(ext);
        msg.append(" is not allowed on this board");
        return Err(AppError::BadRequest(msg));
    }
    if data.len() as u64 > board.max_file_size {
        return Err(AppError::bad_request("File is too large"));
    }
    if data.len() == 0 {
        return Err(AppError::bad_request("File is empty"));
    }
    Ok(Validated { data, original_name, kind, spoiler })
}

/// First checks of an upload: magic bytes, allowed extension, size.
pub fn validate(data: Vec<u8>, filename: &str, board: &BoardConfig, spoiler: bool) -> (res: Result<
    Validated,
    AppError,
>)
    ensures
        validation_matches(res, data@, filename@, *board, spoiler, spec_detect(data@)),
{
    let kind = detect(data.as_slice());
    validate_detected(data, filename, board, spoiler, kind)
}

// ------------------------------------------------------------------ storing

/// Sixteen random bytes (`rand::random`). Nothing is claimed of them.
#[verifier::external_body]
fn random_bytes() -> (res: [u8; 16]) {
    rand::random()
}

/// A random hexadecimal file stem: 32 hex digits of some 16 bytes.
pub fn random_hex() -> (res: String)
    ensures
        exists|b: Seq<u8>| b.len() == 16 && res@ == spec_hex(b),
        res@.len() == 32,
        forall|k: int| 0 <= k < res@.len() ==> is_hex_char(#[trigger] res@[k]),
{
    let bytes = random_bytes();
    proof {
        lemma_hex_shape(bytes@);
    }
    to_hex(bytes.as_slice())
}

/// Stored and thumbnail file names of a stem: `<stem>.<ext>` and `<stem>.jpg`.
pub fn stored_names(stem: &str, kind: Kind) -> (res: (String, String))
    ensures
        res.0@ == stem@ + "."@ + spec_canonical_ext(kind),
        res.1@ == stem@ + ".jpg"@,
{
    let mut stored = stem.to_owned();
    stored.append(".");
    stored.append(kind.canonical_ext());
    let mut thumb = stem.to_owned();
    thumb.append(".jpg");
    (stored, thumb)
}

/// The record of a saved upload: its names, type, size, dimensions and SHA-256.
pub fn stored_record(v: &Validated, stem: &str, width: Option<i32>, height: Option<i32>) -> (res:
    Stored)
    requires
        v.data@.len() <= i64::MAX,
    ensures
        res.original_name@ == v.original_name@,
        res.stored_name@ == stem@ + "."@ + spec_canonical_ext(v.kind),
        res.thumb_name@ == stem@ + ".jpg"@,
        res.mime@ == kind_parts(v.kind).1,
        res.size == v.data@.len(),
        res.width == width,
        res.height == height,
        res.sha256@ == spec_hex(crate::hashes::sha256_of(v.data@)),
        res.spoiler == v.spoiler,
{
    let (stored_name, thumb_name) = stored_names(stem, v.kind);
    Stored {
        original_name: v.original_name.clone(),
        stored_name,
        thumb_name,
        mime: v.kind.mime().to_owned(),
        size: v.data.len() as i64,
        width,
        height,
        sha256: file_hash(v.data.as_slice()),
        spoiler: v.spoiler,
    }
}

// ------------------------------------------------------------------ images

/// Whether an image of `w × h` pixels is over the limit (0: no limit).
pub open spec fn too_many_pixels(w: u32, h: u32, max_pixels: u64) -> bool {
    max_pixels > 0 && w * h > max_pixels
}

/// Checks an image's resolution against the configured limit.
pub fn check_image_size(w: u32, h: u32, media: &MediaConfig) -> (res: Result<(), AppError>)
    ensures
        match res {
            Ok(()) => !too_many_pixels(w, h, media.max_image_pixels),
            Err(e) => too_many_pixels(w, h, media.max_image_pixels) && (e matches AppError::BadRequest(
                m,
            ) && m@ == "Image resolution is too large"@),
        },
{
    assert((w as u64) * (h as u64) <= 0xFFFF_FFFF_FFFF_FFFF) by (nonlinear_arith)
        requires
            w <= 0xFFFF_FFFF,
            h <= 0xFFFF_FFFF,
    ;
    let pixels = (w as u64) * (h as u64);
    if media.max_image_pixels > 0 && pixels > media.max_image_pixels {
        return Err(AppError::bad_request("Image resolution is too large"));
    }
    Ok(())
}

/// The width and height of the image that the `image` crate decodes from some
/// bytes; `None` where it decodes none.
pub uninterp spec fn decoded_size(data: Seq<u8>) -> Option<(u32, u32)>;

/// `image::load_from_memory`, and the decoded image's `width` and `height`. The
/// contract names the outcome for exactly these bytes.
#[verifier::external_body]
fn decoded_dimensions(data: &[u8]) -> (res: Option<(u32, u32)>)
    ensures
        res == decoded_size(data@),
{
    match image::load_from_memory(data) {
        Ok(img) => Some((img.width(), img.height())),
        Err(_) => None,
    }
}

/// The JPEG that the `image` crate writes, at quality `quality`, of the
/// thumbnail fitting `width × height` of the image it decodes from `data`;
/// `None` where it decodes no image or the encoder fails.
pub uninterp spec fn jpeg_thumbnail_of(data: Seq<u8>, width: u32, height: u32, quality: u8) -> Option<
    Seq<u8>,
>;

/// `image::load_from_memory`, `DynamicImage::thumbnail` and `JpegEncoder` with
/// `write_with_encoder`. The contract names the outcome for exactly these bytes,
/// bounds and quality.
#[verifier::external_body]
fn jpeg_thumbnail(data: &[u8], width: u32, height: u32, quality: u8) -> (res: Option<Vec<u8>>)
    ensures
        match res {
            Some(b) => jpeg_thumbnail_of(data@, width, height, quality) == Some(b@),
            None => jpeg_thumbnail_of(data@, width, height, quality) is None,
        },
{
    let img = match image::load_from_memory(data) {
        Ok(img) => img,
        Err(_) => return None,
    };
    let thumb = img.thumbnail(width, height);
    let mut buf = Vec::new();
    let encoder = image::codecs::jpeg::JpegEncoder::new_with_quality(&mut buf, quality);
    match thumb.write_with_encoder(encoder) {
        Ok(()) => Some(buf),
        Err(_) => None,
    }
}

/// The JPEG thumbnail of an uploaded image and its dimensions: a bad request for
/// bytes that decode to no image or to too many pixels; an internal error where
/// the thumbnail cannot be encoded.
pub fn image_thumb(data: &[u8], media: &MediaConfig) -> (res: Result<
    (Vec<u8>, Option<i32>, Option<i32>),
    AppError,
>)
    ensures
        match decoded_size(data@) {
            None => res matches Err(AppError::BadRequest(m)) && m@ == "Corrupt image"@,
            Some((w, h)) => if too_many_pixels(w, h, media.max_image_pixels) {
                res matches Err(AppError::BadRequest(m)) && m@ == "Image resolution is too large"@
            } else {
                match jpeg_thumbnail_of(
                    data@,
                    media.thumb_width,
                    media.thumb_height,
                    media.thumb_quality,
                ) {
                    Some(t) => res matches Ok((b, rw, rh)) && b@ == t && rw == Some(w as i32) && rh
                        == Some(h as i32),
                    None => res matches Err(AppError::Internal(_)),
                }
            },
        },
{
    let (w, h) = match decoded_dimensions(data) {
        Some(x) => x,
        None => {
            return Err(AppError::bad_request("Corrupt image"));
        },
    };
    match check_image_size(w, h, media) {
        Ok(()) => {},
        Err(e) => {
            return Err(e);
        },
    }
    match jpeg_thumbnail(data, media.thumb_width, media.thumb_height, media.thumb_quality) {
        Some(bytes) => Ok((bytes, Some(w as i32), Some(h as i32))),
        None => Err(AppError::Internal("encode thumb".to_owned())),
    }
}

} // verus!
