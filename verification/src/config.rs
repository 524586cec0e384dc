//! Configuration: defaults, the checks a loaded configuration must pass, and
//! board lookup.
use vstd::prelude::*;

use crate::net::{IpAddress, IpNetwork};
use crate::text::string_from_chars;

verus! {

/// Root configuration of the application.
#[derive(Debug, Clone)]
pub struct Config {
    pub server: ServerConfig,
    pub database: DatabaseConfig,
    pub security: SecurityConfig,
    pub moderation: ModerationConfig,
    pub media: MediaConfig,
    pub boards: Vec<BoardConfig>,
}

#[derive(Debug, Clone)]
pub struct ServerConfig {
    pub host: String,
    pub port: u16,
    /// Public base URL (for generated links), e.g. https://chan.example.com
    pub base_url: String,
    /// Directory where uploaded files are stored.
    pub data_dir: String,
    /// Trusted proxies: requests from them carry the client address in
    /// X-Forwarded-For.
    pub trusted_proxies: Vec<IpNetwork>,
}

#[derive(Debug, Clone)]
pub struct DatabaseConfig {
    pub url: String,
}

#[derive(Debug, Clone)]
pub struct SecurityConfig {
    /// Secret for the HMAC of IP addresses; addresses are never stored in clear.
    pub secret: String,
    /// Separate salt for secure tripcodes; `secret` is used when absent.
    pub secure_trip_salt: Option<String>,
    /// Former secrets, still checked for bans while secrets rotate.
    pub old_secrets: Vec<String>,
    /// Posts allowed per IP hash and minute.
    pub max_posts_per_minute: u32,
    /// Whether to send HSTS (only when served over HTTPS).
    pub hsts: bool,
}

#[derive(Debug, Clone)]
pub struct ModerationConfig {
    /// Password of the moderation panel.
    pub admin_password: String,
    /// When set, the panel lives only under /mod/<secret>/.
    pub mod_secret_url: Option<String>,
    /// Lifetime of a moderator session, in hours.
    pub session_hours: i64,
}

#[derive(Debug, Clone)]
pub struct MediaConfig {
    pub thumb_width: u32,
    pub thumb_height: u32,
    pub thumb_quality: u8,
    /// Longest video allowed, in seconds; 0 for no limit.
    pub max_video_seconds: u32,
    /// Most pixels an image may have (width × height); 0 for no limit.
    pub max_image_pixels: u64,
}

#[derive(Debug, Clone)]
pub struct BoardConfig {
    /// Short name of the board, e.g. "b".
    pub short: String,
    /// Title of the board.
    pub title: String,
    pub description: String,
    pub nsfw: bool,
    /// Most threads on the board (sticky ones not counted).
    pub thread_limit: usize,
    /// Posts after which a thread is no longer bumped (0 = no limit).
    pub bump_limit: usize,
    /// Most files per post.
    pub max_images: usize,
    /// Largest file allowed, in bytes.
    pub max_file_size: u64,
    /// Allowed extensions (no dot, lower case).
    pub allowed_extensions: Vec<String>,
    /// When set, threads not bumped for this many days are pruned.
    pub max_thread_age_days: Option<i64>,
}

/// The server settings by default: local host, port 8080, `data` for files,
/// the loopback address as the one trusted proxy.
pub open spec fn is_default_server(s: ServerConfig) -> bool {
    &&& s.host@ == "127.0.0.1"@
    &&& s.port == 8080
    &&& s.base_url@ == "http://localhost:8080"@
    &&& s.data_dir@ == "data"@
    &&& s.trusted_proxies@ == seq![
        IpNetwork { addr: IpAddress::V4([127u8, 0u8, 0u8, 1u8]), prefix_len: 32 },
    ]
}

/// The database settings by default.
pub open spec fn is_default_database(d: DatabaseConfig) -> bool {
    d.url@ == "postgres://localhost/microchan"@
}

/// The security settings by default: no secret yet, no separate salt, no
/// former secrets, ten posts a minute, no HSTS.
pub open spec fn is_default_security(s: SecurityConfig) -> bool {
    &&& s.secret@ == Seq::<char>::empty()
    &&& s.secure_trip_salt is None
    &&& s.old_secrets@ == Seq::<String>::empty()
    &&& s.max_posts_per_minute == 10
    &&& !s.hsts
}

/// The moderation settings by default: no password yet, the panel at `/mod`,
/// sessions of twelve hours.
pub open spec fn is_default_moderation(m: ModerationConfig) -> bool {
    &&& m.admin_password@ == Seq::<char>::empty()
    &&& m.mod_secret_url is None
    &&& m.session_hours == 12
}

/// The media settings by default: 200 × 200 thumbnails at quality 80, no video
/// length limit, at most fifty million pixels.
pub open spec fn is_default_media(m: MediaConfig) -> bool {
    &&& m.thumb_width == 200
    &&& m.thumb_height == 200
    &&& m.thumb_quality == 80
    &&& m.max_video_seconds == 0
    &&& m.max_image_pixels == 50_000_000
}

impl Default for ServerConfig {
    fn default() -> (res: Self)
        ensures
            is_default_server(res),
    {
        let mut trusted = Vec::new();
        trusted.push(IpNetwork { addr: IpAddress::V4([127, 0, 0, 1]), prefix_len: 32 });
        ServerConfig {
            host: "127.0.0.1".to_owned(),
            port: 8080,
            base_url: "http://localhost:8080".to_owned(),
            data_dir: "data".to_owned(),
            trusted_proxies: trusted,
        }
    }
}

impl Default for DatabaseConfig {
    fn default() -> (res: Self)
        ensures
            is_default_database(res),
    {
        DatabaseConfig { url: "postgres://localhost/microchan".to_owned() }
    }
}

impl Default for SecurityConfig {
    fn default() -> (res: Self)
        ensures
            is_default_security(res),
    {
        SecurityConfig {
            secret: String::new(),
            secure_trip_salt: None,
            old_secrets: Vec::new(),
            max_posts_per_minute: 10,
            hsts: false,
        }
    }
}

impl Default for ModerationConfig {
    fn default() -> (res: Self)
        ensures
            is_default_moderation(res),
    {
        ModerationConfig { admin_password: String::new(), mod_secret_url: None, session_hours: 12 }
    }
}

impl Default for MediaConfig {
    fn default() -> (res: Self)
        ensures
            is_default_media(res),
    {
        MediaConfig {
            thumb_width: 200,
            thumb_height: 200,
            thumb_quality: 80,
            max_video_seconds: 0,
            max_image_pixels: 50_000_000,
        }
    }
}

impl Default for Config {
    fn default() -> (res: Self)
        ensures
            is_default_server(res.server),
            is_default_database(res.database),
            is_default_security(res.security),
            is_default_moderation(res.moderation),
            is_default_media(res.media),
            res.boards@ == Seq::<BoardConfig>::empty(),
    {
        Config {
            server: ServerConfig::default(),
            database: DatabaseConfig::default(),
            security: SecurityConfig::default(),
            moderation: ModerationConfig::default(),
            media: MediaConfig::default(),
            boards: Vec::new(),
        }
    }
}

impl SecurityConfig {
    /// Salt of secure tripcodes: `secure_trip_salt`, falling back to `secret`.
    pub fn secure_trip_salt(&self) -> (res: &str)
        ensures
            res@ == match self.secure_trip_salt {
                Some(s) => s@,
                None => self.secret@,
            },
    {
        match &self.secure_trip_salt {
            Some(s) => s.as_str(),
            None => self.secret.as_str(),
        }
    }
}

// ------------------------------------------------------------------ checks

/// What is wrong with board `i`, given the boards before it: an empty short name,
/// no allowed extensions, or a short name seen before.
pub open spec fn board_problem(boards: Seq<BoardConfig>, i: int) -> Option<Seq<char>> {
    let b = boards[i];
    if b.short@.len() == 0 {
        Some("board short name cannot be empty"@)
    } else if b.allowed_extensions@.len() == 0 {
        Some("board "@ + b.short@ + " has no allowed_extensions"@)
    } else if exists|j: int| 0 <= j < i && #[trigger] boards[j].short@ == b.short@ {
        Some("duplicate board short name: "@ + b.short@)
    } else {
        None
    }
}

/// The first problem among the first `n` boards.
pub open spec fn boards_problem(boards: Seq<BoardConfig>, n: int) -> Option<Seq<char>>
    decreases n,
{
    if n <= 0 {
        None
    } else {
        match boards_problem(boards, n - 1) {
            Some(e) => Some(e),
            None => board_problem(boards, n - 1),
        }
    }
}

/// The first problem of a configuration, checked in order: the secret, the
/// boards, the moderator password.
pub open spec fn config_problem(cfg: Config) -> Option<Seq<char>> {
    if cfg.security.secret@.len() == 0 {
        Some("security.secret is required (set in config or MICROCHAN_SECRET)"@)
    } else {
        match boards_problem(cfg.boards@, cfg.boards@.len() as int) {
            Some(e) => Some(e),
            None => if cfg.moderation.admin_password@.len() == 0 {
                Some("moderation.admin_password is required"@)
            } else {
                None
            },
        }
    }
}

/// Once some board has a problem, the first problem stays the same whatever
/// boards follow.
proof fn lemma_problem_persists(boards: Seq<BoardConfig>, k: int, n: int)
    requires
        0 < k <= n,
        boards_problem(boards, k) is Some,
    ensures
        boards_problem(boards, n) == boards_problem(boards, k),
    decreases n - k,
{
    if n > k {
        lemma_problem_persists(boards, k, n - 1);
    }
}

/// `first + middle + last` as a `String`.
fn concat3(first: &str, middle: &str, last: &str) -> (res: String)
    ensures
        res@ == first@ + middle@ + last@,
{
    let mut s = first.to_owned();
    s.append(middle);
    s.append(last);
    s
}

/// The first problem with the board at `i`, given the boards before it.
fn check_board(boards: &Vec<BoardConfig>, i: usize) -> (res: Option<String>)
    requires
        i < boards@.len(),
    ensures
        res.deep_view() == board_problem(boards@, i as int),
{
    let b = &boards[i];
    if b.short.as_str().is_empty() {
        return Some("board short name cannot be empty".to_owned());
    }
    if b.allowed_extensions.len() == 0 {
        return Some(concat3("board ", b.short.as_str(), " has no allowed_extensions"));
    }
    let mut j: usize = 0;
    while j < i
        invariant
            i < boards@.len(),
            j <= i,
            b == boards@[i as int],
            b.short@.len() != 0,
            b.allowed_extensions@.len() != 0,
            forall|k: int| 0 <= k < j ==> #[trigger] boards@[k].short@ != b.short@,
        decreases i - j,
    {
        if boards[j].short == b.short {
            assert(boards@[j as int].short@ == b.short@);
            let mut msg = "duplicate board short name: ".to_owned();
            msg.append(b.short.as_str());
            assert(msg@ == "duplicate board short name: "@ + b.short@);
            return Some(msg);
        }
        j = j + 1;
    }
    None
}

impl Config {
    /// Checks a loaded configuration; the error names the first problem found.
    pub fn validate(&self) -> (res: Result<(), String>)
        ensures
            match config_problem(*self) {
                Some(e) => res matches Err(m) && m@ == e,
                None => res is Ok,
            },
    {
        if self.security.secret.as_str().is_empty() {
            return Err("security.secret is required (set in config or MICROCHAN_SECRET)".to_owned());
        }
        let mut i: usize = 0;
        while i < self.boards.len()
            invariant
                i <= self.boards@.len(),
                self.security.secret@.len() != 0,
                boards_problem(self.boards@, i as int) is None,
            decreases self.boards@.len() - i,
        {
            if let Some(e) = check_board(&self.boards, i) {
                proof {
                    assert(boards_problem(self.boards@, i as int + 1) == Some(e@));
                    lemma_problem_persists(self.boards@, i as int + 1, self.boards@.len() as int);
                }
                return Err(e);
            }
            i = i + 1;
        }
        if self.moderation.admin_password.as_str().is_empty() {
            return Err("moderation.admin_password is required".to_owned());
        }
        Ok(())
    }

    /// Settles a configuration read from its file: an empty secret URL means
    /// none, and `DATABASE_URL` and `MICROCHAN_SECRET`, where set, override the
    /// database URL and the secret.
    pub fn apply_overrides(&mut self, database_url: Option<String>, secret: Option<String>)
        ensures
            final(self).server == old(self).server,
            final(self).boards == old(self).boards,
            final(self).media == old(self).media,
            final(self).security.secure_trip_salt == old(self).security.secure_trip_salt,
            final(self).security.old_secrets == old(self).security.old_secrets,
            final(self).security.max_posts_per_minute == old(self).security.max_posts_per_minute,
            final(self).security.hsts == old(self).security.hsts,
            final(self).moderation.admin_password == old(self).moderation.admin_password,
            final(self).moderation.session_hours == old(self).moderation.session_hours,
            final(self).moderation.mod_secret_url.deep_view() == match old(
                self,
            ).moderation.mod_secret_url {
                Some(u) => if u@.len() == 0 {
                    None
                } else {
                    Some(u@)
                },
                None => None,
            },
            final(self).database.url@ == match database_url {
                Some(u) => u@,
                None => old(self).database.url@,
            },
            final(self).security.secret@ == match secret {
                Some(v) => v@,
                None => old(self).security.secret@,
            },
    {
        let empty_url = match &self.moderation.mod_secret_url {
            Some(u) => u.as_str().is_empty(),
            None => false,
        };
        if empty_url {
            self.moderation.mod_secret_url = None;
        }
        if let Some(url) = database_url {
            self.database.url = url;
        }
        if let Some(v) = secret {
            self.security.secret = v;
        }
    }

    /// The board with this short name, if any.
    pub fn board(&self, short: &str) -> (res: Option<&BoardConfig>)
        ensures
            match res {
                Some(b) => exists|i: int|
                    0 <= i < self.boards@.len() && self.boards@[i] == *b && b.short@ == short@
                        && forall|j: int| 0 <= j < i ==> #[trigger] self.boards@[j].short@ != short@,
                None => forall|i: int|
                    0 <= i < self.boards@.len() ==> #[trigger] self.boards@[i].short@ != short@,
            },
    {
        let key = short.to_owned();
        let mut i: usize = 0;
        while i < self.boards.len()
            invariant
                i <= self.boards@.len(),
                key@ == short@,
                forall|j: int| 0 <= j < i ==> #[trigger] self.boards@[j].short@ != short@,
            decreases self.boards@.len() - i,
        {
            if self.boards[i].short == key {
                return Some(&self.boards[i]);
            }
            i = i + 1;
        }
        None
    }
}

/// A configuration without problems has a secret and a moderator password, and
/// boards with names, with allowed extensions, and no two with the same name.
pub proof fn lemma_valid_config(cfg: Config)
    requires
        config_problem(cfg) is None,
    ensures
        cfg.security.secret@.len() > 0,
        cfg.moderation.admin_password@.len() > 0,
        forall|i: int|
            0 <= i < cfg.boards@.len() ==> (#[trigger] cfg.boards@[i]).short@.len() > 0
                && cfg.boards@[i].allowed_extensions@.len() > 0,
        forall|i: int, j: int|
            0 <= j < i < cfg.boards@.len() ==> (#[trigger] cfg.boards@[i]).short@
                != (#[trigger] cfg.boards@[j]).short@,
{
    let b = cfg.boards@;
    lemma_no_problem_prefix(b, b.len() as int);
    assert forall|i: int| 0 <= i < b.len() implies (#[trigger] b[i]).short@.len() > 0
        && b[i].allowed_extensions@.len() > 0 by {
        assert(board_problem(b, i) is None);
    }
    assert forall|i: int, j: int| 0 <= j < i < b.len() implies (#[trigger] b[i]).short@
        != (#[trigger] b[j]).short@ by {
        assert(board_problem(b, i) is None);
        if b[i].short@ == b[j].short@ {
            assert(b[j].short@ == b[i].short@);
        }
    }
}

/// Where the first `n` boards have no problem, none of them has one.
proof fn lemma_no_problem_prefix(boards: Seq<BoardConfig>, n: int)
    requires
        boards_problem(boards, n) is None,
        n <= boards.len(),
    ensures
        forall|i: int| 0 <= i < n ==> #[trigger] board_problem(boards, i) is None,
    decreases n,
{
    if n > 0 {
        lemma_no_problem_prefix(boards, n - 1);
    }
}

} // verus!
