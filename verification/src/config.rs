//! Normalisation of operator settings: model base URLs, storage locations
//! rebased onto the executable's directory, seed lists and boolean flags.
//! Paths follow Unix rules: a path is absolute when it begins with `/`.
use vstd::prelude::*;

use crate::models::{clamp_unit, clamp_unit_bits, lemma_clamp_unit, SemanticAxis};

use crate::text::{
    texts,    chars_equal, chars_of, find_chars, lower_ascii, push_char, push_str, slice_chars,
    starts_with, starts_with_at, string_of, trim, trim_chars, ascii_lower,
};

verus! {

/// `s` with every trailing `/` removed (`str::trim_end_matches('/')`).
pub open spec fn strip_trailing_slashes(s: Seq<char>) -> Seq<char>
    decreases s.len(),
{
    if s.len() > 0 && s.last() == '/' {
        strip_trailing_slashes(s.drop_last())
    } else {
        s
    }
}

/// A model base URL: trimmed, trailing slashes dropped, `http://` prepended
/// when no HTTP(S) scheme is given.
pub open spec fn normalized_base_url(value: Seq<char>) -> Seq<char> {
    let t = strip_trailing_slashes(trim(value));
    if starts_with(t, "http://"@) || starts_with(t, "https://"@) {
        t
    } else {
        "http://"@ + t
    }
}

/// Normalises an operator-entered model base URL.
pub fn normalize_llm_base_url(value: &str) -> (r: String)
    ensures
        r@ == normalized_base_url(value@),
        starts_with(r@, "http://"@) || starts_with(r@, "https://"@),
{
    let cs = chars_of(value);
    let t0 = trim_chars(&cs);
    let mut k = t0.len();
    assert(t0@.take(t0.len() as int) == t0@);
    while k > 0 && t0[k - 1] == '/'
        invariant
            0 <= k <= t0.len(),
            strip_trailing_slashes(t0@) == strip_trailing_slashes(t0@.take(k as int)),
        decreases k,
    {
        assert(t0@.take(k as int).drop_last() == t0@.take(k - 1));
        k -= 1;
    }
    assert(t0@.take(t0.len() as int) == t0@);
    let t = slice_chars(&t0, 0, k);
    assert(t@ == t0@.take(k as int));
    let http: Vec<char> = chars_of("http://");
    let https: Vec<char> = chars_of("https://");
    assert(t@.skip(0) == t@);
    if starts_with_at(&t, 0, &http) || starts_with_at(&t, 0, &https) {
        string_of(&t)
    } else {
        let mut out = String::from_str("http://");
        let ghost prefix = out@;
        crate::text::push_chars(&mut out, &t);
        assert(out@.take(prefix.len() as int) =~= prefix);
        out
    }
}

/// Stripping trailing slashes keeps a prefix that does not end in `/`.
pub proof fn lemma_strip_shape(s: Seq<char>)
    ensures
        strip_trailing_slashes(s).len() <= s.len(),
        s.take(strip_trailing_slashes(s).len() as int) == strip_trailing_slashes(s),
        strip_trailing_slashes(s).len() > 0 ==> strip_trailing_slashes(s).last() != '/',
    decreases s.len(),
{
    if s.len() > 0 && s.last() == '/' {
        lemma_strip_shape(s.drop_last());
        let t = strip_trailing_slashes(s.drop_last());
        assert(s.take(t.len() as int) =~= s.drop_last().take(t.len() as int));
    } else {
        assert(s.take(s.len() as int) =~= s);
    }
}

/// A normalised base URL normalises to itself, unless its host part is
/// empty or ends in whitespace (as in `"a /"`), where the trimming steps
/// would remove more the second time.
pub proof fn lemma_base_url_stable(value: Seq<char>)
    requires
        strip_trailing_slashes(trim(value)).len() > 0,
        !crate::text::is_ws(strip_trailing_slashes(trim(value)).last()),
    ensures
        normalized_base_url(normalized_base_url(value)) == normalized_base_url(value),
{
    let t = strip_trailing_slashes(trim(value));
    crate::text::lemma_trim_shape(value);
    lemma_strip_shape(trim(value));
    assert(t[0] == trim(value)[0]);
    let n = normalized_base_url(value);
    reveal_strlit("http://");
    if starts_with(t, "http://"@) || starts_with(t, "https://"@) {
        assert(n == t);
    } else {
        assert(n == "http://"@ + t);
        assert(n[0] == 'h');
        assert(n.last() == t.last());
        assert(n.take(7) =~= "http://"@);
    }
    crate::text::lemma_trim_noop(n);
    assert(n.last() != '/');
    assert(strip_trailing_slashes(n) == n);
}

/// A path is absolute when it begins at the root.
pub open spec fn is_absolute(path: Seq<char>) -> bool {
    path.len() > 0 && path[0] == '/'
}

/// `PathBuf::push` under Unix rules: an absolute `path` replaces `dir`;
/// otherwise a separator is added when `dir` does not already end in one.
pub open spec fn join_path(dir: Seq<char>, path: Seq<char>) -> Seq<char> {
    if is_absolute(path) {
        path
    } else if dir.len() > 0 && dir.last() != '/' {
        dir + seq!['/'] + path
    } else {
        dir + path
    }
}

/// `dir` joined with `path`.
pub fn join_dir(dir: &str, path: &str) -> (r: String)
    ensures
        r@ == join_path(dir@, path@),
{
    let p = chars_of(path);
    if p.len() > 0 && p[0] == '/' {
        return string_of(&p);
    }
    let d = chars_of(dir);
    let mut out = string_of(&d);
    if d.len() > 0 && d[d.len() - 1] != '/' {
        push_char(&mut out, '/');
    }
    crate::text::push_chars(&mut out, &p);
    out
}

/// `sqlite://<path>`, followed by `?<query>` when a non-empty query is given.
pub open spec fn sqlite_url(path: Seq<char>, query: Option<Seq<char>>) -> Seq<char> {
    match query {
        Some(q) if q.len() > 0 => "sqlite://"@ + path + seq!['?'] + q,
        _ => "sqlite://"@ + path,
    }
}

/// The characters of an optional string.
pub open spec fn opt_chars(value: Option<&str>) -> Option<Seq<char>> {
    match value {
        Some(v) => Some(v@),
        None => None,
    }
}

/// The SQLite URL for a filesystem path and optional query string.
pub fn sqlite_url_for_path(path: &str, query: Option<&str>) -> (r: String)
    ensures
        r@ == sqlite_url(path@, opt_chars(query)),
{
    let mut url = String::from_str("sqlite://");
    push_str(&mut url, path);
    match query {
        Some(q) => {
            if !q.is_empty() {
                push_char(&mut url, '?');
                push_str(&mut url, q);
            }
        },
        None => {},
    }
    url
}

/// The default database: `hunger.db` beside the executable, opened read-write-create.
pub open spec fn default_database(dir: Seq<char>) -> Seq<char> {
    sqlite_url(join_path(dir, "hunger.db"@), Some("mode=rwc"@))
}

/// The default database URL for an executable directory.
pub fn default_database_url(executable_dir: &str) -> (r: String)
    ensures
        r@ == default_database(executable_dir@),
{
    let path = join_dir(executable_dir, "hunger.db");
    sqlite_url_for_path(path.as_str(), Some("mode=rwc"))
}

/// The default settings file: `hunger.settings.json` beside the executable.
pub open spec fn default_settings(dir: Seq<char>) -> Seq<char> {
    join_path(dir, "hunger.settings.json"@)
}

/// The default settings path for an executable directory.
pub fn default_settings_path(executable_dir: &str) -> (r: String)
    ensures
        r@ == default_settings(executable_dir@),
{
    join_dir(executable_dir, "hunger.settings.json")
}

/// A settings path: the default when blank, kept when absolute, rebased onto
/// the executable directory otherwise.
pub open spec fn resolved_settings_path(value: Seq<char>, dir: Seq<char>) -> Seq<char> {
    let t = trim(value);
    if t.len() == 0 {
        default_settings(dir)
    } else {
        join_path(dir, t)
    }
}

/// Resolves an operator-given settings path against the executable directory.
pub fn resolve_settings_path(value: &str, executable_dir: &str) -> (r: String)
    ensures
        r@ == resolved_settings_path(value@, executable_dir@),
{
    let cs = chars_of(value);
    let t = trim_chars(&cs);
    if t.len() == 0 {
        return default_settings_path(executable_dir);
    }
    let ts = string_of(&t);
    join_dir(executable_dir, ts.as_str())
}

/// The path and query halves of a SQLite URL body, split at the first `?`.
pub open spec fn split_query(body: Seq<char>) -> (Seq<char>, Option<Seq<char>>) {
    match crate::text::find(body, seq!['?']) {
        Some(i) => (body.take(i), Some(body.skip(i + 1))),
        None => (body, None),
    }
}

/// A `sqlite://` URL body with a relative path rebased onto the executable directory.
pub open spec fn resolved_sqlite_body(body: Seq<char>, dir: Seq<char>) -> Seq<char> {
    let (path, query) = split_query(body);
    sqlite_url(join_path(dir, path), query)
}

/// Rebases the path of a `sqlite://` URL body onto the executable directory
/// when it is relative, keeping its query.
pub fn resolve_sqlite_body(body: &str, executable_dir: &str) -> (r: String)
    ensures
        r@ == resolved_sqlite_body(body@, executable_dir@),
{
    let cs = chars_of(body);
    let q: Vec<char> = vec!['?'];
    assert(q@ == seq!['?']);
    match find_chars(&cs, &q, 0) {
        Some(i) => {
            proof {
                crate::text::lemma_find_from_found(cs@, q@, 0);
            }
            let n = cs.len();
            let path = string_of(&slice_chars(&cs, 0, i));
            let query = string_of(&slice_chars(&cs, i + 1, n));
            assert(cs@.subrange(0, i as int) == cs@.take(i as int));
            assert(cs@.subrange(i + 1, n as int) == cs@.skip(i + 1));
            let joined = join_dir(executable_dir, path.as_str());
            sqlite_url_for_path(joined.as_str(), Some(query.as_str()))
        },
        None => {
            let joined = join_dir(executable_dir, body);
            sqlite_url_for_path(joined.as_str(), None)
        },
    }
}

/// A database URL: the default when blank; `sqlite://` bodies rebased;
/// Postgres and MySQL URLs kept; anything else taken as a SQLite file path,
/// rebased when relative and opened read-write-create.
pub open spec fn resolved_database_url(value: Seq<char>, dir: Seq<char>) -> Seq<char> {
    let t = trim(value);
    if t.len() == 0 {
        default_database(dir)
    } else if starts_with(t, "sqlite://"@) {
        resolved_sqlite_body(t.skip(9), dir)
    } else if starts_with(t, "postgres://"@) || starts_with(t, "postgresql://"@) || starts_with(
        t,
        "mysql://"@,
    ) {
        t
    } else {
        sqlite_url(join_path(dir, t), Some("mode=rwc"@))
    }
}

/// Resolves an operator-given database URL against the executable directory.
pub fn resolve_database_url(value: &str, executable_dir: &str) -> (r: String)
    ensures
        r@ == resolved_database_url(value@, executable_dir@),
{
    let cs = chars_of(value);
    let t = trim_chars(&cs);
    if t.len() == 0 {
        return default_database_url(executable_dir);
    }
    assert(t@.skip(0) == t@);
    let sqlite = chars_of("sqlite://");
    if starts_with_at(&t, 0, &sqlite) {
        proof {
            reveal_strlit("sqlite://");
            assert(sqlite@.len() == 9);
            assert(t@.take(sqlite@.len() as int) == "sqlite://"@);
        }
        let n = t.len();
        let k = sqlite.len();
        let body = string_of(&slice_chars(&t, k, n));
        assert(t@.subrange(k as int, n as int) == t@.skip(k as int));
        return resolve_sqlite_body(body.as_str(), executable_dir);
    }
    let postgres = chars_of("postgres://");
    let postgresql = chars_of("postgresql://");
    let mysql = chars_of("mysql://");
    if starts_with_at(&t, 0, &postgres) || starts_with_at(&t, 0, &postgresql) || starts_with_at(
        &t,
        0,
        &mysql,
    ) {
        return string_of(&t);
    }
    let ts = string_of(&t);
    let absolute = join_dir(executable_dir, ts.as_str());
    sqlite_url_for_path(absolute.as_str(), Some("mode=rwc"))
}

/// Each entry trimmed, blank entries dropped, order kept.
pub open spec fn cleaned(values: Seq<Seq<char>>) -> Seq<Seq<char>>
    decreases values.len(),
{
    if values.len() == 0 {
        Seq::empty()
    } else {
        let prior = cleaned(values.drop_last());
        let t = trim(values.last());
        if t.len() > 0 {
            prior.push(t)
        } else {
            prior
        }
    }
}

/// A trimmed copy of `value` (`str::trim`).
pub fn trimmed(value: &str) -> (r: String)
    ensures
        r@ == trim(value@),
{
    let cs = chars_of(value);
    string_of(&trim_chars(&cs))
}

/// The seed URLs trimmed, with blank entries dropped.
pub fn clean_seed_urls(values: &Vec<String>) -> (r: Vec<String>)
    ensures
        texts(r@) == cleaned(texts(values@)),
{
    let mut r: Vec<String> = Vec::new();
    let mut i: usize = 0;
    while i < values.len()
        invariant
            0 <= i <= values.len(),
            texts(r@) == cleaned(texts(values@).take(i as int)),
        decreases values.len() - i,
    {
        let t = trimmed(values[i].as_str());
        proof {
            assert(texts(values@).take(i + 1).drop_last() == texts(values@).take(i as int));
            assert(texts(values@).take(i + 1).last() == values@[i as int]@);
        }
        if !t.as_str().is_empty() {
            proof {
                assert(texts(r@.push(t)) == texts(r@).push(t@));
            }
            r.push(t);
        }
        i += 1;
    }
    assert(texts(values@).take(values.len() as int) == texts(values@));
    r
}

/// Scan state of a split at `sep`: finished pieces and the piece in progress.
pub open spec fn split_scan(s: Seq<char>, sep: char) -> (Seq<Seq<char>>, Seq<char>)
    decreases s.len(),
{
    if s.len() == 0 {
        (Seq::empty(), Seq::empty())
    } else {
        let (done, cur) = split_scan(s.drop_last(), sep);
        if s.last() == sep {
            (done.push(cur), Seq::empty())
        } else {
            (done, cur.push(s.last()))
        }
    }
}

/// The pieces of `s` between occurrences of `sep`, empty ones included (`str::split`).
pub open spec fn split_on(s: Seq<char>, sep: char) -> Seq<Seq<char>> {
    let (done, cur) = split_scan(s, sep);
    done.push(cur)
}

/// The comma-separated seed list of the environment, trimmed and without blanks.
pub fn split_seed_urls(raw: &str) -> (r: Vec<String>)
    ensures
        texts(r@) == cleaned(split_on(raw@, ',')),
{
    let cs = chars_of(raw);
    let mut pieces: Vec<String> = Vec::new();
    let mut cur: Vec<char> = Vec::new();
    let mut i: usize = 0;
    while i < cs.len()
        invariant
            0 <= i <= cs.len(),
            cs@ == raw@,
            texts(pieces@) == split_scan(cs@.take(i as int), ',').0,
            cur@ == split_scan(cs@.take(i as int), ',').1,
        decreases cs.len() - i,
    {
        proof {
            assert(cs@.take(i + 1).drop_last() == cs@.take(i as int));
        }
        if cs[i] == ',' {
            let piece = string_of(&cur);
            proof {
                assert(texts(pieces@.push(piece)) == texts(pieces@).push(piece@));
            }
            pieces.push(piece);
            cur = Vec::new();
        } else {
            cur.push(cs[i]);
        }
        i += 1;
    }
    assert(cs@.take(cs.len() as int) == cs@);
    let last = string_of(&cur);
    proof {
        assert(texts(pieces@.push(last)) == texts(pieces@).push(last@));
    }
    pieces.push(last);
    clean_seed_urls(&pieces)
}

/// An optional model name trimmed, absent when blank.
pub open spec fn cleaned_name(value: Option<Seq<char>>) -> Option<Seq<char>> {
    match value {
        Some(v) if trim(v).len() > 0 => Some(trim(v)),
        _ => None,
    }
}

/// Trims an optional model name, dropping it when blank.
pub fn clean_model_name(value: Option<&str>) -> (r: Option<String>)
    ensures
        opt_string_chars(r) == cleaned_name(opt_chars(value)),
{
    match value {
        Some(v) => {
            let t = trimmed(v);
            if t.as_str().is_empty() {
                None
            } else {
                Some(t)
            }
        },
        None => None,
    }
}

/// The characters of an optional owned string.
pub open spec fn opt_string_chars(value: Option<String>) -> Option<Seq<char>> {
    match value {
        Some(v) => Some(v@),
        None => None,
    }
}

/// A boolean setting: `1`, `true`, `yes` or `on` (any ASCII case, surrounding
/// whitespace ignored) mean on, any other text means off, no text means the default.
pub open spec fn flag_of(value: Option<Seq<char>>, default: bool) -> bool {
    match value {
        None => default,
        Some(v) => {
            let l = ascii_lower(trim(v));
            l == "1"@ || l == "true"@ || l == "yes"@ || l == "on"@
        },
    }
}

/// Reads a boolean setting from its raw text.
pub fn flag_setting(value: Option<&str>, default: bool) -> (r: bool)
    ensures
        r == flag_of(opt_chars(value), default),
{
    match value {
        None => default,
        Some(v) => {
            let cs = chars_of(v);
            let l = lower_ascii(&trim_chars(&cs));
            chars_equal(&l, "1") || chars_equal(&l, "true") || chars_equal(&l, "yes")
                || chars_equal(&l, "on")
        },
    }
}

/// The settings an operator edits on the dashboard. Thresholds are the bit
/// patterns of `f32` values.
#[derive(Clone, Debug, PartialEq)]
pub struct EditableSettings {
    pub bind_addr: String,
    pub database_url: String,
    pub seed_urls: Vec<String>,
    pub llm_base_url: String,
    pub llm_api_key: String,
    pub llm_model: String,
    pub embedding_model: Option<String>,
    pub page_semantic_map_enabled: bool,
    pub llm_semantic_map_enabled: bool,
    pub semantic_axes: Vec<SemanticAxis>,
    pub request_timeout_secs: u64,
    pub llm_timeout_secs: u64,
    pub crawl_idle_ms: u64,
    pub max_links_per_page: usize,
    pub expand_threshold: u32,
    pub sample_threshold: u32,
}

/// The larger of two numbers.
pub open spec fn at_least(value: u64, floor: u64) -> u64 {
    if value < floor {
        floor
    } else {
        value
    }
}

impl EditableSettings {
    /// The edited settings as they take effect: bind address trimmed, the
    /// database URL resolved against the executable directory, seeds cleaned,
    /// the base URL normalised, the model name trimmed, a blank embedding
    /// model dropped, timeouts raised to one second and the idle delay to
    /// 100 ms, at least one link per page, thresholds clamped to `[0, 1]`.
    pub fn normalized(&self, executable_dir: &str) -> (r: EditableSettings)
        ensures
            r.bind_addr@ == trim(self.bind_addr@),
            r.database_url@ == resolved_database_url(self.database_url@, executable_dir@),
            texts(r.seed_urls@) == cleaned(texts(self.seed_urls@)),
            r.llm_base_url@ == normalized_base_url(self.llm_base_url@),
            r.llm_api_key@ == self.llm_api_key@,
            r.llm_model@ == trim(self.llm_model@),
            opt_string_chars(r.embedding_model) == cleaned_name(
                opt_string_chars(self.embedding_model),
            ),
            r.page_semantic_map_enabled == self.page_semantic_map_enabled,
            r.llm_semantic_map_enabled == self.llm_semantic_map_enabled,
            r.semantic_axes@.len() == self.semantic_axes@.len(),
            forall|i: int|
                0 <= i < self.semantic_axes@.len() ==> #[trigger] r.semantic_axes@[i].negative_label@
                    == self.semantic_axes@[i].negative_label@ && r.semantic_axes@[i].positive_label@
                    == self.semantic_axes@[i].positive_label@,
            r.request_timeout_secs == at_least(self.request_timeout_secs, 1),
            r.llm_timeout_secs == at_least(self.llm_timeout_secs, 1),
            r.crawl_idle_ms == at_least(self.crawl_idle_ms, 100),
            r.max_links_per_page == if self.max_links_per_page < 1 {
                1
            } else {
                self.max_links_per_page
            },
            r.expand_threshold == clamp_unit(self.expand_threshold),
            r.sample_threshold == clamp_unit(self.sample_threshold),
    {
        let embedding_model = match &self.embedding_model {
            Some(m) => clean_model_name(Some(m.as_str())),
            None => None,
        };
        EditableSettings {
            bind_addr: trimmed(self.bind_addr.as_str()),
            database_url: resolve_database_url(self.database_url.as_str(), executable_dir),
            seed_urls: clean_seed_urls(&self.seed_urls),
            llm_base_url: normalize_llm_base_url(self.llm_base_url.as_str()),
            llm_api_key: String::from_str(self.llm_api_key.as_str()),
            llm_model: trimmed(self.llm_model.as_str()),
            embedding_model,
            page_semantic_map_enabled: self.page_semantic_map_enabled,
            llm_semantic_map_enabled: self.llm_semantic_map_enabled,
            semantic_axes: copy_axes(&self.semantic_axes),
            request_timeout_secs: if self.request_timeout_secs < 1 {
                1
            } else {
                self.request_timeout_secs
            },
            llm_timeout_secs: if self.llm_timeout_secs < 1 {
                1
            } else {
                self.llm_timeout_secs
            },
            crawl_idle_ms: if self.crawl_idle_ms < 100 {
                100
            } else {
                self.crawl_idle_ms
            },
            max_links_per_page: if self.max_links_per_page < 1 {
                1
            } else {
                self.max_links_per_page
            },
            expand_threshold: clamp_unit_bits(self.expand_threshold),
            sample_threshold: clamp_unit_bits(self.sample_threshold),
        }
    }
}

/// A copy of each axis, labels kept.
pub fn copy_axes(axes: &Vec<SemanticAxis>) -> (r: Vec<SemanticAxis>)
    ensures
        r@.len() == axes@.len(),
        forall|i: int|
            0 <= i < axes@.len() ==> #[trigger] r@[i].negative_label@ == axes@[i].negative_label@
                && r@[i].positive_label@ == axes@[i].positive_label@,
{
    let mut r: Vec<SemanticAxis> = Vec::new();
    let mut i: usize = 0;
    while i < axes.len()
        invariant
            0 <= i <= axes.len(),
            r@.len() == i,
            forall|j: int|
                0 <= j < i ==> #[trigger] r@[j].negative_label@ == axes@[j].negative_label@
                    && r@[j].positive_label@ == axes@[j].positive_label@,
        decreases axes.len() - i,
    {
        let a = &axes[i];
        r.push(
            SemanticAxis {
                negative_label: String::from_str(a.negative_label.as_str()),
                positive_label: String::from_str(a.positive_label.as_str()),
            },
        );
        i += 1;
    }
    r
}

/// A `sqlite://` body with an absolute path, whose query (if any) is not
/// empty, resolves to itself.
pub proof fn lemma_sqlite_body_fixed(body: Seq<char>, dir: Seq<char>)
    requires
        body.len() > 0,
        body[0] == '/',
        split_query(body).1 matches Some(q) ==> q.len() > 0,
    ensures
        resolved_sqlite_body(body, dir) == "sqlite://"@ + body,
{
    crate::text::lemma_find_char(body, '?', 0);
    match crate::text::find(body, seq!['?']) {
        Some(i) => {
            assert(i != 0);
            let path = body.take(i);
            assert(path[0] == '/');
            assert(join_path(dir, path) == path);
            assert(path + seq!['?'] + body.skip(i + 1) =~= body);
            assert("sqlite://"@ + path + seq!['?'] + body.skip(i + 1) =~= "sqlite://"@ + body);
        },
        None => {
            assert(join_path(dir, body) == body);
        },
    }
}

/// The body of a SQLite URL built for `path` with `query`.
pub open spec fn sqlite_body(path: Seq<char>, query: Option<Seq<char>>) -> Seq<char> {
    match query {
        Some(q) if q.len() > 0 => path + seq!['?'] + q,
        _ => path,
    }
}

/// A body built from an absolute path that does not end in `?` and a
/// query resolves to itself.
pub proof fn lemma_built_body_fixed(path: Seq<char>, query: Option<Seq<char>>, dir: Seq<char>)
    requires
        path.len() > 0,
        path[0] == '/',
        path.last() != '?' || (query matches Some(q) && q.len() > 0),
    ensures
        sqlite_url(path, query) == "sqlite://"@ + sqlite_body(path, query),
        resolved_sqlite_body(sqlite_body(path, query), dir) == sqlite_url(path, query),
{
    let body = sqlite_body(path, query);
    crate::text::lemma_find_char(body, '?', 0);
    match query {
        Some(q) => {
            if q.len() > 0 {
                assert(body[path.len() as int] == '?');
                match crate::text::find(body, seq!['?']) {
                    Some(i) => {
                        assert(i <= path.len());
                        assert(body.skip(i + 1).len() > 0);
                    },
                    None => {},
                }
            } else {
                match crate::text::find(body, seq!['?']) {
                    Some(i) => {
                        assert(body.last() != '?');
                        assert(i < body.len() - 1);
                        assert(body.skip(i + 1).len() > 0);
                    },
                    None => {},
                }
            }
        },
        None => {
            match crate::text::find(body, seq!['?']) {
                Some(i) => {
                    assert(i < body.len() - 1);
                    assert(body.skip(i + 1).len() > 0);
                },
                None => {},
            }
        },
    }
    lemma_sqlite_body_fixed(body, dir);
    assert(("sqlite://"@ + path + seq!['?']) + match query { Some(q) => q, None => Seq::empty() }
        =~= "sqlite://"@ + body || !(query matches Some(q) && q.len() > 0));
}

/// Joining onto an absolute directory gives an absolute path that ends as
/// the joined path does, or in `/` when that is empty.
pub proof fn lemma_join_shape(dir: Seq<char>, path: Seq<char>)
    requires
        is_absolute(dir),
    ensures
        join_path(dir, path).len() > 0,
        join_path(dir, path)[0] == '/',
        path.len() > 0 ==> join_path(dir, path).last() == path.last(),
        path.len() == 0 ==> join_path(dir, path).last() == '/',
{
    if is_absolute(path) {
    } else if dir.len() > 0 && dir.last() != '/' {
        assert((dir + seq!['/'] + path)[0] == dir[0]);
    } else {
        assert((dir + path)[0] == dir[0]);
    }
}

/// A SQLite URL whose body resolves back to it is resolved to itself.
proof fn lemma_sqlite_result_stable(r: Seq<char>, body: Seq<char>, dir: Seq<char>)
    requires
        r == "sqlite://"@ + body,
        resolved_sqlite_body(body, dir) == r,
        !crate::text::is_ws(r.last()),
    ensures
        resolved_database_url(r, dir) == r,
{
    reveal_strlit("sqlite://");
    assert(r[0] == 's');
    crate::text::lemma_trim_noop(r);
    assert(r.take(9) =~= "sqlite://"@);
    assert(r.skip(9) =~= body);
}

/// Resolving a database URL a second time changes nothing, when the
/// executable directory is absolute and the resolved URL does not end in
/// whitespace (as it can for `sqlite://a ?`, whose path keeps its trailing
/// space while the empty query is dropped).
pub proof fn lemma_database_url_stable(value: Seq<char>, dir: Seq<char>)
    requires
        is_absolute(dir),
        resolved_database_url(value, dir).len() > 0,
        !crate::text::is_ws(resolved_database_url(value, dir).last()),
    ensures
        resolved_database_url(resolved_database_url(value, dir), dir) == resolved_database_url(
            value,
            dir,
        ),
{
    let r = resolved_database_url(value, dir);
    let t = trim(value);
    crate::text::lemma_trim_shape(value);
    reveal_strlit("sqlite://");
    reveal_strlit("hunger.db");
    reveal_strlit("mode=rwc");
    reveal_strlit("postgres://");
    reveal_strlit("postgresql://");
    reveal_strlit("mysql://");
    if t.len() == 0 {
        let p = join_path(dir, "hunger.db"@);
        lemma_join_shape(dir, "hunger.db"@);
        lemma_built_body_fixed(p, Some("mode=rwc"@), dir);
        assert(r == "sqlite://"@ + sqlite_body(p, Some("mode=rwc"@)));
        lemma_sqlite_result_stable(r, sqlite_body(p, Some("mode=rwc"@)), dir);
    } else if starts_with(t, "sqlite://"@) {
        let body = t.skip(9);
        let (path, query) = split_query(body);
        crate::text::lemma_find_char(body, '?', 0);
        let p = join_path(dir, path);
        lemma_join_shape(dir, path);
        if path.len() > 0 {
            assert(path.last() == body[path.len() - 1]);
        }
        lemma_built_body_fixed(p, query, dir);
        assert(r == "sqlite://"@ + sqlite_body(p, query));
        lemma_sqlite_result_stable(r, sqlite_body(p, query), dir);
    } else if starts_with(t, "postgres://"@) || starts_with(t, "postgresql://"@) || starts_with(
        t,
        "mysql://"@,
    ) {
        assert(r == t);
        crate::text::lemma_trim_noop(t);
        assert(trim(r) == r);
        assert(!starts_with(t, "sqlite://"@)) by {
            if starts_with(t, "postgres://"@) {
                assert(t[0] == t.take(11)[0]);
            } else if starts_with(t, "postgresql://"@) {
                assert(t[0] == t.take(13)[0]);
            } else {
                assert(t[0] == t.take(8)[0]);
            }
            assert(t[0] != 's');
            if starts_with(t, "sqlite://"@) {
                assert(t.take(9)[0] == 's');
            }
        }
    } else {
        let p = join_path(dir, t);
        lemma_join_shape(dir, t);
        lemma_built_body_fixed(p, Some("mode=rwc"@), dir);
        assert(r == "sqlite://"@ + sqlite_body(p, Some("mode=rwc"@)));
        lemma_sqlite_result_stable(r, sqlite_body(p, Some("mode=rwc"@)), dir);
    }
}

/// Cleaning a cleaned seed list keeps it as it is.
pub proof fn lemma_cleaned_idempotent(values: Seq<Seq<char>>)
    ensures
        cleaned(cleaned(values)) == cleaned(values),
    decreases values.len(),
{
    if values.len() > 0 {
        let prior = cleaned(values.drop_last());
        lemma_cleaned_idempotent(values.drop_last());
        let t = trim(values.last());
        if t.len() > 0 {
            crate::text::lemma_trim_idempotent(values.last());
            assert(prior.push(t).drop_last() =~= prior);
        }
    }
}

/// Settings that were normalized once are not changed by normalizing them
/// again, as when saved settings are loaded back at the next start: bind
/// address, seeds, model names, timeouts, link limit and thresholds always;
/// the base URL and the database URL whenever their normalized form does not
/// end in whitespace and the executable directory is absolute.
pub proof fn lemma_normalization_stable(e: EditableSettings, executable_dir: Seq<char>)
    requires
        strip_trailing_slashes(trim(e.llm_base_url@)).len() > 0,
        !crate::text::is_ws(strip_trailing_slashes(trim(e.llm_base_url@)).last()),
        is_absolute(executable_dir),
        resolved_database_url(e.database_url@, executable_dir).len() > 0,
        !crate::text::is_ws(resolved_database_url(e.database_url@, executable_dir).last()),
    ensures
        trim(trim(e.bind_addr@)) == trim(e.bind_addr@),
        resolved_database_url(resolved_database_url(e.database_url@, executable_dir), executable_dir)
            == resolved_database_url(e.database_url@, executable_dir),
        cleaned(cleaned(texts(e.seed_urls@))) == cleaned(texts(e.seed_urls@)),
        normalized_base_url(normalized_base_url(e.llm_base_url@)) == normalized_base_url(
            e.llm_base_url@,
        ),
        trim(trim(e.llm_model@)) == trim(e.llm_model@),
        cleaned_name(cleaned_name(opt_string_chars(e.embedding_model))) == cleaned_name(
            opt_string_chars(e.embedding_model),
        ),
        at_least(at_least(e.request_timeout_secs, 1) as u64, 1) == at_least(
            e.request_timeout_secs,
            1,
        ),
        at_least(at_least(e.llm_timeout_secs, 1) as u64, 1) == at_least(e.llm_timeout_secs, 1),
        at_least(at_least(e.crawl_idle_ms, 100) as u64, 100) == at_least(e.crawl_idle_ms, 100),
        clamp_unit(clamp_unit(e.expand_threshold)) == clamp_unit(e.expand_threshold),
        clamp_unit(clamp_unit(e.sample_threshold)) == clamp_unit(e.sample_threshold),
{
    crate::text::lemma_trim_idempotent(e.bind_addr@);
    crate::text::lemma_trim_idempotent(e.llm_model@);
    lemma_database_url_stable(e.database_url@, executable_dir);
    lemma_cleaned_idempotent(texts(e.seed_urls@));
    lemma_base_url_stable(e.llm_base_url@);
    match opt_string_chars(e.embedding_model) {
        Some(v) => crate::text::lemma_trim_idempotent(v),
        None => {},
    }
    lemma_clamp_unit(e.expand_threshold);
    lemma_clamp_unit(e.sample_threshold);
}

} // verus!
