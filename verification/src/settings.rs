//! Merging a saved settings file onto current defaults, and reporting which
//! edits only take effect after a restart.
use vstd::prelude::*;

use crate::config::EditableSettings;
use crate::models::SemanticAxis;
use crate::text::{chars_equal, join, join_strings, push_str, texts};

verus! {

/// A settings file as saved by any earlier version: every field optional.
/// Thresholds are the bit patterns of `f32` values.
#[derive(Clone, Debug, Default)]
pub struct PartialEditableSettings {
    pub bind_addr: Option<String>,
    pub database_url: Option<String>,
    pub seed_urls: Option<Vec<String>>,
    pub llm_base_url: Option<String>,
    pub llm_api_key: Option<String>,
    pub llm_model: Option<String>,
    pub embedding_model: Option<String>,
    pub page_semantic_map_enabled: Option<bool>,
    pub llm_semantic_map_enabled: Option<bool>,
    pub semantic_axes: Option<Vec<SemanticAxis>>,
    pub request_timeout_secs: Option<u64>,
    pub llm_timeout_secs: Option<u64>,
    pub crawl_idle_ms: Option<u64>,
    pub max_links_per_page: Option<usize>,
    pub expand_threshold: Option<u32>,
    pub sample_threshold: Option<u32>,
}

/// The saved value when present, else the current one.
pub open spec fn overlay<T>(saved: Option<T>, current: T) -> T {
    match saved {
        Some(v) => v,
        None => current,
    }
}

/// The saved value when present, else the current one.
pub fn pick<T>(saved: Option<T>, current: T) -> (r: T)
    ensures
        r == overlay(saved, current),
{
    match saved {
        Some(v) => v,
        None => current,
    }
}

impl PartialEditableSettings {
    /// The merge of `self` onto `base`: each field present in the file wins,
    /// each absent field keeps the base value.
    pub open spec fn merged(self, base: EditableSettings) -> EditableSettings {
        EditableSettings {
            bind_addr: overlay(self.bind_addr, base.bind_addr),
            database_url: overlay(self.database_url, base.database_url),
            seed_urls: overlay(self.seed_urls, base.seed_urls),
            llm_base_url: overlay(self.llm_base_url, base.llm_base_url),
            llm_api_key: overlay(self.llm_api_key, base.llm_api_key),
            llm_model: overlay(self.llm_model, base.llm_model),
            embedding_model: if self.embedding_model is Some {
                self.embedding_model
            } else {
                base.embedding_model
            },
            page_semantic_map_enabled: overlay(
                self.page_semantic_map_enabled,
                base.page_semantic_map_enabled,
            ),
            llm_semantic_map_enabled: overlay(
                self.llm_semantic_map_enabled,
                base.llm_semantic_map_enabled,
            ),
            semantic_axes: overlay(self.semantic_axes, base.semantic_axes),
            request_timeout_secs: overlay(self.request_timeout_secs, base.request_timeout_secs),
            llm_timeout_secs: overlay(self.llm_timeout_secs, base.llm_timeout_secs),
            crawl_idle_ms: overlay(self.crawl_idle_ms, base.crawl_idle_ms),
            max_links_per_page: overlay(self.max_links_per_page, base.max_links_per_page),
            expand_threshold: overlay(self.expand_threshold, base.expand_threshold),
            sample_threshold: overlay(self.sample_threshold, base.sample_threshold),
        }
    }

    /// Overlays the fields present in a saved file onto the current settings.
    pub fn merge(self, base: EditableSettings) -> (r: EditableSettings)
        ensures
            r == self.merged(base),
    {
        EditableSettings {
            bind_addr: pick(self.bind_addr, base.bind_addr),
            database_url: pick(self.database_url, base.database_url),
            seed_urls: pick(self.seed_urls, base.seed_urls),
            llm_base_url: pick(self.llm_base_url, base.llm_base_url),
            llm_api_key: pick(self.llm_api_key, base.llm_api_key),
            llm_model: pick(self.llm_model, base.llm_model),
            embedding_model: if self.embedding_model.is_some() {
                self.embedding_model
            } else {
                base.embedding_model
            },
            page_semantic_map_enabled: pick(self.page_semantic_map_enabled, base.page_semantic_map_enabled),
            llm_semantic_map_enabled: pick(self.llm_semantic_map_enabled, base.llm_semantic_map_enabled),
            semantic_axes: pick(self.semantic_axes, base.semantic_axes),
            request_timeout_secs: pick(self.request_timeout_secs, base.request_timeout_secs),
            llm_timeout_secs: pick(self.llm_timeout_secs, base.llm_timeout_secs),
            crawl_idle_ms: pick(self.crawl_idle_ms, base.crawl_idle_ms),
            max_links_per_page: pick(self.max_links_per_page, base.max_links_per_page),
            expand_threshold: pick(self.expand_threshold, base.expand_threshold),
            sample_threshold: pick(self.sample_threshold, base.sample_threshold),
        }
    }
}

/// A settings file that names no field.
pub open spec fn nothing_saved() -> PartialEditableSettings {
    PartialEditableSettings {
        bind_addr: None,
        database_url: None,
        seed_urls: None,
        llm_base_url: None,
        llm_api_key: None,
        llm_model: None,
        embedding_model: None,
        page_semantic_map_enabled: None,
        llm_semantic_map_enabled: None,
        semantic_axes: None,
        request_timeout_secs: None,
        llm_timeout_secs: None,
        crawl_idle_ms: None,
        max_links_per_page: None,
        expand_threshold: None,
        sample_threshold: None,
    }
}

/// Merging a file that names no field leaves the current settings as they are.
pub proof fn lemma_merge_nothing_keeps_base(base: EditableSettings)
    ensures
        nothing_saved().merged(base) == base,
{
}

/// Merging twice with the same file is merging once.
pub proof fn lemma_merge_idempotent(saved: PartialEditableSettings, base: EditableSettings)
    ensures
        saved.merged(saved.merged(base)) == saved.merged(base),
{
}

/// Every field present in a saved file wins over the current setting, and
/// every absent field keeps it.
pub proof fn lemma_saved_fields_win(saved: PartialEditableSettings, base: EditableSettings)
    ensures
        saved.bind_addr matches Some(v) ==> saved.merged(base).bind_addr == v,
        saved.bind_addr is None ==> saved.merged(base).bind_addr == base.bind_addr,
        saved.database_url matches Some(v) ==> saved.merged(base).database_url == v,
        saved.database_url is None ==> saved.merged(base).database_url == base.database_url,
        saved.seed_urls matches Some(v) ==> saved.merged(base).seed_urls == v,
        saved.seed_urls is None ==> saved.merged(base).seed_urls == base.seed_urls,
        saved.llm_base_url matches Some(v) ==> saved.merged(base).llm_base_url == v,
        saved.llm_base_url is None ==> saved.merged(base).llm_base_url == base.llm_base_url,
        saved.llm_api_key matches Some(v) ==> saved.merged(base).llm_api_key == v,
        saved.llm_api_key is None ==> saved.merged(base).llm_api_key == base.llm_api_key,
        saved.llm_model matches Some(v) ==> saved.merged(base).llm_model == v,
        saved.llm_model is None ==> saved.merged(base).llm_model == base.llm_model,
        saved.embedding_model matches Some(v) ==> saved.merged(base).embedding_model == Some(v),
        saved.embedding_model is None ==> saved.merged(base).embedding_model
            == base.embedding_model,
        saved.page_semantic_map_enabled matches Some(v) ==> saved.merged(
            base,
        ).page_semantic_map_enabled == v,
        saved.page_semantic_map_enabled is None ==> saved.merged(base).page_semantic_map_enabled
            == base.page_semantic_map_enabled,
        saved.llm_semantic_map_enabled matches Some(v) ==> saved.merged(
            base,
        ).llm_semantic_map_enabled == v,
        saved.llm_semantic_map_enabled is None ==> saved.merged(base).llm_semantic_map_enabled
            == base.llm_semantic_map_enabled,
        saved.semantic_axes matches Some(v) ==> saved.merged(base).semantic_axes == v,
        saved.semantic_axes is None ==> saved.merged(base).semantic_axes == base.semantic_axes,
        saved.request_timeout_secs matches Some(v) ==> saved.merged(base).request_timeout_secs
            == v,
        saved.request_timeout_secs is None ==> saved.merged(base).request_timeout_secs
            == base.request_timeout_secs,
        saved.llm_timeout_secs matches Some(v) ==> saved.merged(base).llm_timeout_secs == v,
        saved.llm_timeout_secs is None ==> saved.merged(base).llm_timeout_secs
            == base.llm_timeout_secs,
        saved.crawl_idle_ms matches Some(v) ==> saved.merged(base).crawl_idle_ms == v,
        saved.crawl_idle_ms is None ==> saved.merged(base).crawl_idle_ms == base.crawl_idle_ms,
        saved.max_links_per_page matches Some(v) ==> saved.merged(base).max_links_per_page == v,
        saved.max_links_per_page is None ==> saved.merged(base).max_links_per_page
            == base.max_links_per_page,
        saved.expand_threshold matches Some(v) ==> saved.merged(base).expand_threshold == v,
        saved.expand_threshold is None ==> saved.merged(base).expand_threshold
            == base.expand_threshold,
        saved.sample_threshold matches Some(v) ==> saved.merged(base).sample_threshold == v,
        saved.sample_threshold is None ==> saved.merged(base).sample_threshold
            == base.sample_threshold,
{
}

/// The settings whose new value differs from the one the process started
/// with, in the order bind address, database URL.
pub open spec fn restart_fields(
    startup_bind_addr: Seq<char>,
    startup_database_url: Seq<char>,
    bind_addr: Seq<char>,
    database_url: Seq<char>,
) -> Seq<Seq<char>> {
    let first: Seq<Seq<char>> = if bind_addr != startup_bind_addr {
        seq!["bind_addr"@]
    } else {
        Seq::empty()
    };
    if database_url != startup_database_url {
        first.push("database_url"@)
    } else {
        first
    }
}

/// Lists the settings that only take effect after a restart because they
/// changed since startup.
pub fn pending_restart(
    startup_bind_addr: &str,
    startup_database_url: &str,
    bind_addr: &str,
    database_url: &str,
) -> (r: Vec<String>)
    ensures
        r@.map_values(|s: String| s@) == restart_fields(
            startup_bind_addr@,
            startup_database_url@,
            bind_addr@,
            database_url@,
        ),
{
    let mut pending: Vec<String> = Vec::new();
    let bind = crate::text::chars_of(bind_addr);
    if !chars_equal(&bind, startup_bind_addr) {
        pending.push(String::from_str("bind_addr"));
    }
    let db = crate::text::chars_of(database_url);
    if !chars_equal(&db, startup_database_url) {
        pending.push(String::from_str("database_url"));
    }
    assert(pending@.map_values(|s: String| s@) =~= restart_fields(
        startup_bind_addr@,
        startup_database_url@,
        bind_addr@,
        database_url@,
    ));
    pending
}

/// Nothing awaits a restart exactly when bind address and database URL are
/// unchanged since startup.
pub proof fn lemma_no_restart_iff_unchanged(
    startup_bind_addr: Seq<char>,
    startup_database_url: Seq<char>,
    bind_addr: Seq<char>,
    database_url: Seq<char>,
)
    ensures
        restart_fields(startup_bind_addr, startup_database_url, bind_addr, database_url).len()
            == 0 <==> (bind_addr == startup_bind_addr && database_url == startup_database_url),
{
}

/// The status line shown after settings were saved.
pub open spec fn saved_message(pending: Seq<Seq<char>>) -> Seq<char> {
    if pending.len() == 0 {
        "Settings saved. Runtime changes are active."@
    } else {
        "Settings saved. Restart required for: "@ + join(pending, ", "@)
    }
}

/// Reports a save: active at once, or which settings await a restart.
pub fn saved_settings_message(pending_restart: &Vec<String>) -> (r: String)
    ensures
        r@ == saved_message(texts(pending_restart@)),
{
    if pending_restart.len() == 0 {
        String::from_str("Settings saved. Runtime changes are active.")
    } else {
        let mut line = String::from_str("Settings saved. Restart required for: ");
        let listed = join_strings(pending_restart, ", ");
        push_str(&mut line, listed.as_str());
        line
    }
}

} // verus!
