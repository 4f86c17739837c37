//! The settings of the service, read from named texts.

use vstd::prelude::*;

use crate::chars;
use crate::net;
use crate::net::Cidr;
use crate::scalar::Scalar;
use crate::streaming;

verus! {

/// A variable of the environment: its name, its text, and the number that the
/// text spells, if it spells one.
pub struct EnvVar<S> {
    pub name: String,
    pub value: String,
    pub number: Option<S>,
}

/// The first variable of that name.
pub open spec fn var_of<S>(vars: Seq<EnvVar<S>>, name: Seq<char>) -> Option<EnvVar<S>>
    decreases vars.len(),
{
    if vars.len() == 0 {
        None
    } else if vars[0].name@ == name {
        Some(vars[0])
    } else {
        var_of(vars.skip(1), name)
    }
}

pub fn find_var<'a, S: Scalar>(vars: &'a [EnvVar<S>], name: &str) -> (r: Option<&'a EnvVar<S>>)
    ensures
        match r {
            None => var_of(vars@, name@) is None,
            Some(v) => var_of(vars@, name@) == Some(*v),
        },
{
    let mut i: usize = 0;
    assert(vars@.skip(0) =~= vars@);
    while i < vars.len()
        invariant
            i <= vars@.len(),
            var_of(vars@, name@) == var_of(vars@.skip(i as int), name@),
        decreases vars@.len() - i,
    {
        assert(vars@.skip(i as int)[0] == vars@[i as int]);
        if chars::same_text(vars[i].name.as_str(), name) {
            return Some(&vars[i]);
        }
        assert(vars@.skip(i as int).skip(1) =~= vars@.skip(i as int + 1));
        i = i + 1;
    }
    None
}

// ---------------------------------------------------------------------------
// One value

pub open spec fn text_of<S>(v: Option<EnvVar<S>>, default: Seq<char>) -> Seq<char> {
    match v {
        Some(x) => x.value@,
        None => default,
    }
}

/// The text of a variable.
pub fn env<S: Scalar>(vars: &[EnvVar<S>], name: &str, default: &str) -> (r: String)
    ensures
        r@ == text_of(var_of(vars@, name@), default@),
{
    match find_var(vars, name) {
        Some(v) => v.value.as_str().to_owned(),
        None => default.to_owned(),
    }
}

pub open spec fn says_on(w: Seq<char>) -> bool {
    w == "1"@ || w == "true"@ || w == "yes"@ || w == "on"@
}

pub open spec fn says_off(w: Seq<char>) -> bool {
    w == "0"@ || w == "false"@ || w == "no"@ || w == "off"@
}

pub open spec fn switch_of<S>(v: Option<EnvVar<S>>, default: bool) -> bool {
    match v {
        Some(x) => {
            let w = chars::lowercase(chars::trimmed(x.value@));
            if says_on(w) {
                true
            } else if says_off(w) {
                false
            } else {
                default
            }
        },
        None => default,
    }
}

/// A variable that switches something on or off.
pub fn env_bool<S: Scalar>(vars: &[EnvVar<S>], name: &str, default: bool) -> (r: bool)
    ensures
        r == switch_of(var_of(vars@, name@), default),
{
    match find_var(vars, name) {
        Some(v) => switch_word_or(chars::to_lower(chars::trim(v.value.as_str()).as_str()).as_str(), default),
        None => default,
    }
}

/// What a word in lower case says as a switch.
pub fn switch_word_or(w: &str, default: bool) -> (r: bool)
    ensures
        r == (if says_on(w@) {
            true
        } else if says_off(w@) {
            false
        } else {
            default
        }),
{
    if chars::same_text(w, "1") || chars::same_text(w, "true") || chars::same_text(w, "yes")
        || chars::same_text(w, "on") {
        return true;
    }
    if chars::same_text(w, "0") || chars::same_text(w, "false") || chars::same_text(w, "no")
        || chars::same_text(w, "off") {
        return false;
    }
    default
}

pub open spec fn count_of<S>(v: Option<EnvVar<S>>, default: usize) -> usize {
    match v {
        Some(x) => if chars::trimmed(x.value@).len() == 0 {
            default
        } else {
            match chars::spelled_number(x.value@, usize::MAX as nat) {
                Some(n) => n as usize,
                None => default,
            }
        },
        None => default,
    }
}

/// A variable that counts something.
pub fn env_usize<S: Scalar>(vars: &[EnvVar<S>], name: &str, default: usize) -> (r: usize)
    ensures
        r == count_of(var_of(vars@, name@), default),
{
    match find_var(vars, name) {
        Some(v) => {
            if chars::trim(v.value.as_str()).as_str().is_empty() {
                default
            } else {
                match chars::parse_usize(v.value.as_str()) {
                    Some(n) => n,
                    None => default,
                }
            }
        },
        None => default,
    }
}

pub open spec fn says_none(w: Seq<char>) -> bool {
    w == "none"@ || w == "null"@ || w == "off"@ || w == "false"@ || w == "disabled"@
}

pub open spec fn number_of<S>(v: Option<EnvVar<S>>, default: Option<S>) -> Option<S> {
    match v {
        Some(x) => if chars::trimmed(x.value@).len() == 0 {
            default
        } else if says_none(chars::lowercase(chars::trimmed(x.value@))) {
            None
        } else if x.number is Some {
            x.number
        } else {
            default
        },
        None => default,
    }
}

/// What a word in lower case says as a number: none, the number that is spelled,
/// or the default.
pub fn number_word_or<S: Scalar>(w: &str, number: Option<S>, default: Option<S>) -> (r: Option<S>)
    ensures
        r == (if says_none(w@) {
            None
        } else if number is Some {
            number
        } else {
            default
        }),
{
    if chars::same_text(w, "none") || chars::same_text(w, "null") || chars::same_text(w, "off")
        || chars::same_text(w, "false") || chars::same_text(w, "disabled") {
        return None;
    }
    if number.is_some() {
        return number;
    }
    default
}

/// A variable that holds a number, or none.
pub fn env_f64_opt<S: Scalar>(vars: &[EnvVar<S>], name: &str, default: Option<S>) -> (r: Option<S>)
    ensures
        r == number_of(var_of(vars@, name@), default),
{
    match find_var(vars, name) {
        Some(v) => {
            let t = chars::trim(v.value.as_str());
            if t.as_str().is_empty() {
                default
            } else {
                number_word_or(chars::to_lower(t.as_str()).as_str(), v.number, default)
            }
        },
        None => default,
    }
}

// ---------------------------------------------------------------------------
// Lists

/// The ranges that are readable among the parts of a list.
pub open spec fn readable_nets(parts: Seq<Seq<char>>) -> Seq<(bool, u128, u8)>
    decreases parts.len(),
{
    if parts.len() == 0 {
        Seq::empty()
    } else {
        let before = readable_nets(parts.drop_last());
        match net::parsed_net(chars::trimmed(parts.last())) {
            Some(p) => before.push(p),
            None => before,
        }
    }
}

pub open spec fn net_parts(nets: Seq<Cidr>) -> Seq<(bool, u128, u8)> {
    nets.map_values(|c: Cidr| (c.v6, c.addr, c.prefix_len))
}

pub open spec fn all_nets_wf(nets: Seq<Cidr>) -> bool {
    forall|i: int| 0 <= i < nets.len() ==> (#[trigger] nets[i]).wf()
}

/// The ranges of a list that is separated by commas; what is no range is left out.
pub fn parse_allow_cidrs(raw: &str) -> (r: Vec<Cidr>)
    ensures
        net_parts(r@) == readable_nets(chars::split_on(raw@, ',')),
        all_nets_wf(r@),
{
    let parts = chars::split(raw, ',');
    let ghost all = chars::views(parts@);
    let mut out: Vec<Cidr> = Vec::new();
    let mut i: usize = 0;
    assert(net_parts(out@) =~= readable_nets(all.take(0)));
    while i < parts.len()
        invariant
            i <= parts@.len(),
            all == chars::views(parts@),
            net_parts(out@) == readable_nets(all.take(i as int)),
            all_nets_wf(out@),
        decreases parts@.len() - i,
    {
        let ghost before = out@;
        proof {
            assert(all.take(i as int + 1).drop_last() =~= all.take(i as int));
            assert(all.take(i as int + 1).last() == parts@[i as int]@);
        }
        match net::parse_net(chars::trim(parts[i].as_str()).as_str()) {
            Some(c) => {
                out.push(c);
                assert(net_parts(out@) =~= net_parts(before).push((c.v6, c.addr, c.prefix_len)));
            },
            None => {},
        }
        i = i + 1;
    }
    assert(all.take(i as int) =~= all);
    out
}

/// The parts of a list without the white space around them, and without those
/// that are empty then.
pub open spec fn list_items(parts: Seq<Seq<char>>) -> Seq<Seq<char>>
    decreases parts.len(),
{
    if parts.len() == 0 {
        Seq::empty()
    } else {
        let before = list_items(parts.drop_last());
        let t = chars::trimmed(parts.last());
        if t.len() == 0 {
            before
        } else {
            before.push(t)
        }
    }
}

/// The addresses of a list that is separated by commas.
pub fn parse_csv_urls(raw: &str) -> (r: Vec<String>)
    ensures
        chars::views(r@) == list_items(chars::split_on(raw@, ',')),
{
    let parts = chars::split(raw, ',');
    let ghost all = chars::views(parts@);
    let mut out: Vec<String> = Vec::new();
    let mut i: usize = 0;
    assert(chars::views(out@) =~= list_items(all.take(0)));
    while i < parts.len()
        invariant
            i <= parts@.len(),
            all == chars::views(parts@),
            chars::views(out@) == list_items(all.take(i as int)),
        decreases parts@.len() - i,
    {
        let ghost before = out@;
        proof {
            assert(all.take(i as int + 1).drop_last() =~= all.take(i as int));
            assert(all.take(i as int + 1).last() == parts@[i as int]@);
        }
        let t = chars::trim(parts[i].as_str());
        if !t.as_str().is_empty() {
            let ghost text = t@;
            out.push(t);
            assert(chars::views(out@) =~= chars::views(before).push(text));
        }
        i = i + 1;
    }
    assert(all.take(i as int) =~= all);
    out
}

/// The same in lower case.
pub open spec fn lower_items(parts: Seq<Seq<char>>) -> Seq<Seq<char>>
    decreases parts.len(),
{
    if parts.len() == 0 {
        Seq::empty()
    } else {
        let before = lower_items(parts.drop_last());
        let t = chars::lowercase(chars::trimmed(parts.last()));
        if t.len() == 0 {
            before
        } else {
            before.push(t)
        }
    }
}

/// The host names of a list that is separated by commas, in lower case.
pub fn parse_csv_hosts(raw: &str) -> (r: Vec<String>)
    ensures
        chars::views(r@) == lower_items(chars::split_on(raw@, ',')),
{
    let parts = chars::split(raw, ',');
    let ghost all = chars::views(parts@);
    let mut out: Vec<String> = Vec::new();
    let mut i: usize = 0;
    assert(chars::views(out@) =~= lower_items(all.take(0)));
    while i < parts.len()
        invariant
            i <= parts@.len(),
            all == chars::views(parts@),
            chars::views(out@) == lower_items(all.take(i as int)),
        decreases parts@.len() - i,
    {
        let ghost before = out@;
        proof {
            assert(all.take(i as int + 1).drop_last() =~= all.take(i as int));
            assert(all.take(i as int + 1).last() == parts@[i as int]@);
        }
        let t = chars::to_lower(chars::trim(parts[i].as_str()).as_str());
        if !t.as_str().is_empty() {
            let ghost text = t@;
            out.push(t);
            assert(chars::views(out@) =~= chars::views(before).push(text));
        }
        i = i + 1;
    }
    assert(all.take(i as int) =~= all);
    out
}

pub open spec fn without_slashes_all(urls: Seq<Seq<char>>) -> Seq<Seq<char>> {
    urls.map_values(|u: Seq<char>| streaming::without_slashes(u))
}

/// The transcribers: those of the list, or the single one; without slashes behind.
pub open spec fn transcribers(list: Seq<char>, single: Seq<char>) -> Seq<Seq<char>> {
    let items = list_items(chars::split_on(list, ','));
    without_slashes_all(
        if items.len() == 0 {
            seq![single]
        } else {
            items
        },
    )
}

pub fn read_transcriber_urls(list: &str, single: &str) -> (r: Vec<String>)
    ensures
        chars::views(r@) == transcribers(list@, single@),
{
    let items = parse_csv_urls(list);
    let mut out: Vec<String> = Vec::new();
    if items.len() == 0 {
        out.push(streaming::trim_slashes(single));
        assert(chars::views(out@) =~= transcribers(list@, single@));
        return out;
    }
    let ghost all = without_slashes_all(chars::views(items@));
    let mut i: usize = 0;
    while i < items.len()
        invariant
            i <= items@.len(),
            all == without_slashes_all(chars::views(items@)),
            chars::views(out@) == all.take(i as int),
        decreases items@.len() - i,
    {
        let ghost before = out@;
        let u = streaming::trim_slashes(items[i].as_str());
        let ghost text = u@;
        out.push(u);
        i = i + 1;
        proof {
            assert(chars::views(out@) =~= chars::views(before).push(text));
            assert(all.take(i as int) =~= all.take(i - 1).push(all[i - 1]));
        }
    }
    assert(all.take(i as int) =~= all);
    out
}

// ---------------------------------------------------------------------------
// All settings

/// The settings of the service.
pub struct Settings<S> {
    pub api_key: String,
    pub allow_cidrs: Vec<Cidr>,
    pub enforce_allow_cidrs_with_api_key: bool,
    pub internal_streaming_test_enabled: bool,
    pub internal_streaming_test_key: String,
    pub data_dir: String,
    pub quran_db_path: String,
    pub job_cleanup_enabled: bool,
    pub job_retention_s: u64,
    pub job_cleanup_interval_s: u64,
    pub job_cleanup_startup: bool,
    pub job_cleanup_max_delete_per_run: usize,
    pub max_queue_length: usize,
    pub max_upload_bytes: usize,
    pub worker_concurrency: usize,
    pub rust_transcribe_max_inflight: usize,
    pub transcriber_url: String,
    pub transcriber_urls: Vec<String>,
    pub allow_source_url_hosts: Vec<String>,
    pub ayah_align_mode: String,
    pub ayah_align_v2_assets_dir: String,
    pub ayah_word_time_upgrade: String,
    pub ayah_align_v2_ref_del_cost_cap: Option<S>,
    pub ayah_align_v2_obs_ins_cost_cap: Option<S>,
    pub stream_jwt_secret: String,
    pub stream_jwt_audience: String,
    pub stream_auth_grace_s: u64,
    pub guess_top_k: usize,
    pub guess_per_surah_top_n: usize,
    pub guess_query_operator: String,
    pub guess_rank_mode: String,
    pub guess_max_query_tokens: usize,
    pub guess_max_hits: usize,
    pub demo_enabled: bool,
    pub demo_allowed_origins: Vec<String>,
    pub demo_max_audio_duration_s: usize,
    pub demo_max_upload_bytes: usize,
    pub demo_rate_limit_per_min: usize,
}

impl<S: Scalar> Settings<S> {
    /// The settings that the variables say.
    pub open spec fn are_read_from(&self, vars: Seq<EnvVar<S>>) -> bool {
        &&& self.api_key@ == chars::trimmed(text_of(var_of(vars, "API_KEY"@), ""@))
        &&& net_parts(self.allow_cidrs@) == readable_nets(chars::split_on(text_of(var_of(vars, "ALLOW_CIDRS"@), "100.64.0.0/10,10.0.0.0/8,172.16.0.0/12,192.168.0.0/16,127.0.0.0/8"@), ','))
        &&& self.enforce_allow_cidrs_with_api_key == switch_of(var_of(vars, "ENFORCE_ALLOW_CIDRS_WITH_API_KEY"@), false)
        &&& self.internal_streaming_test_enabled == switch_of(var_of(vars, "INTERNAL_STREAMING_TEST_ENABLED"@), false)
        &&& self.internal_streaming_test_key@ == chars::trimmed(text_of(var_of(vars, "INTERNAL_STREAMING_TEST_KEY"@), ""@))
        &&& self.data_dir@ == text_of(var_of(vars, "DATA_DIR"@), "/data"@)
        &&& self.quran_db_path@ == text_of(var_of(vars, "QURAN_DB_PATH"@), "/data/quran.db"@)
        &&& self.job_cleanup_enabled == switch_of(var_of(vars, "JOB_CLEANUP_ENABLED"@), true)
        &&& self.job_retention_s == count_of(var_of(vars, "JOB_RETENTION_S"@), 86400)
        &&& self.job_cleanup_interval_s == count_of(var_of(vars, "JOB_CLEANUP_INTERVAL_S"@), 3600)
        &&& self.job_cleanup_startup == switch_of(var_of(vars, "JOB_CLEANUP_STARTUP"@), true)
        &&& self.job_cleanup_max_delete_per_run == count_of(var_of(vars, "JOB_CLEANUP_MAX_DELETE_PER_RUN"@), 200)
        &&& self.max_queue_length == count_of(var_of(vars, "MAX_QUEUE_LENGTH"@), 32)
        &&& self.max_upload_bytes == count_of(var_of(vars, "MAX_UPLOAD_BYTES"@), 209715200)
        &&& self.worker_concurrency == count_of(var_of(vars, "WORKER_CONCURRENCY"@), 2)
        &&& self.rust_transcribe_max_inflight == count_of(var_of(vars, "RUST_TRANSCRIBE_MAX_INFLIGHT"@), 2)
        &&& self.transcriber_url@ == text_of(var_of(vars, "TRANSCRIBER_URL"@), "http://transcriber:9000"@)
        &&& chars::views(self.transcriber_urls@) == transcribers(text_of(var_of(vars, "TRANSCRIBER_URLS"@), ""@), self.transcriber_url@)
        &&& chars::views(self.allow_source_url_hosts@) == lower_items(chars::split_on(text_of(var_of(vars, "ALLOW_SOURCE_URL_HOSTS"@), ""@), ','))
        &&& self.ayah_align_mode@ == chars::lowercase(chars::trimmed(text_of(var_of(vars, "AYAH_ALIGN_MODE"@), "v2"@)))
        &&& self.ayah_align_v2_assets_dir@ == text_of(var_of(vars, "AYAH_ALIGN_V2_ASSETS_DIR"@), "/data/alignment/v2"@)
        &&& self.ayah_word_time_upgrade@ == text_of(var_of(vars, "AYAH_WORD_TIME_UPGRADE"@), "smooth"@)
        &&& self.ayah_align_v2_ref_del_cost_cap == number_of(var_of(vars, "AYAH_ALIGN_V2_REF_DEL_COST_CAP"@), Some(S::milli_spec(750)))
        &&& self.ayah_align_v2_obs_ins_cost_cap == number_of(var_of(vars, "AYAH_ALIGN_V2_OBS_INS_COST_CAP"@), None)
        &&& self.stream_jwt_secret@ == chars::trimmed(text_of(var_of(vars, "STREAM_JWT_SECRET"@), ""@))
        &&& self.stream_jwt_audience@ == chars::trimmed(text_of(var_of(vars, "STREAM_JWT_AUDIENCE"@), "inference_stream"@))
        &&& self.stream_auth_grace_s == count_of(var_of(vars, "STREAM_AUTH_GRACE_S"@), 10)
        &&& self.guess_top_k == count_of(var_of(vars, "GUESS_TOP_K"@), 5)
        &&& self.guess_per_surah_top_n == count_of(var_of(vars, "GUESS_PER_SURAH_TOP_N"@), 3)
        &&& self.guess_query_operator@ == text_of(var_of(vars, "GUESS_QUERY_OPERATOR"@), "OR"@)
        &&& self.guess_rank_mode@ == text_of(var_of(vars, "GUESS_RANK_MODE"@), "sum_top_score"@)
        &&& self.guess_max_query_tokens == count_of(var_of(vars, "GUESS_MAX_QUERY_TOKENS"@), 24)
        &&& self.guess_max_hits == count_of(var_of(vars, "GUESS_MAX_HITS"@), 800)
        &&& self.demo_enabled == switch_of(var_of(vars, "DEMO_ENABLED"@), false)
        &&& chars::views(self.demo_allowed_origins@) == list_items(chars::split_on(text_of(var_of(vars, "DEMO_ALLOWED_ORIGINS"@), "*"@), ','))
        &&& self.demo_max_audio_duration_s == count_of(var_of(vars, "DEMO_MAX_AUDIO_DURATION_S"@), 60)
        &&& self.demo_max_upload_bytes == count_of(var_of(vars, "DEMO_MAX_UPLOAD_BYTES"@), 26214400)
        &&& self.demo_rate_limit_per_min == count_of(var_of(vars, "DEMO_RATE_LIMIT_PER_MIN"@), 10)
    }
}

/// Reads the settings from the environment.
pub fn load_settings<S: Scalar>(vars: &[EnvVar<S>]) -> (r: Settings<S>)
    ensures
        r.are_read_from(vars@),
        all_nets_wf(r.allow_cidrs@),
{
    let transcriber_url = env(vars, "TRANSCRIBER_URL", "http://transcriber:9000");
    let transcriber_urls = read_transcriber_urls(env(vars, "TRANSCRIBER_URLS", "").as_str(), transcriber_url.as_str());
    Settings {
        api_key: chars::trim(env(vars, "API_KEY", "").as_str()),
        allow_cidrs: parse_allow_cidrs(
            env(
                vars,
                "ALLOW_CIDRS",
                "100.64.0.0/10,10.0.0.0/8,172.16.0.0/12,192.168.0.0/16,127.0.0.0/8",
            ).as_str(),
        ),
        enforce_allow_cidrs_with_api_key: env_bool(vars, "ENFORCE_ALLOW_CIDRS_WITH_API_KEY", false),
        internal_streaming_test_enabled: env_bool(vars, "INTERNAL_STREAMING_TEST_ENABLED", false),
        internal_streaming_test_key: chars::trim(env(vars, "INTERNAL_STREAMING_TEST_KEY", "").as_str()),
        data_dir: env(vars, "DATA_DIR", "/data"),
        quran_db_path: env(vars, "QURAN_DB_PATH", "/data/quran.db"),
        job_cleanup_enabled: env_bool(vars, "JOB_CLEANUP_ENABLED", true),
        job_retention_s: env_usize(vars, "JOB_RETENTION_S", 86400) as u64,
        job_cleanup_interval_s: env_usize(vars, "JOB_CLEANUP_INTERVAL_S", 3600) as u64,
        job_cleanup_startup: env_bool(vars, "JOB_CLEANUP_STARTUP", true),
        job_cleanup_max_delete_per_run: env_usize(vars, "JOB_CLEANUP_MAX_DELETE_PER_RUN", 200),
        max_queue_length: env_usize(vars, "MAX_QUEUE_LENGTH", 32),
        max_upload_bytes: env_usize(vars, "MAX_UPLOAD_BYTES", 209715200),
        worker_concurrency: env_usize(vars, "WORKER_CONCURRENCY", 2),
        rust_transcribe_max_inflight: env_usize(vars, "RUST_TRANSCRIBE_MAX_INFLIGHT", 2),
        transcriber_url,
        transcriber_urls,
        allow_source_url_hosts: parse_csv_hosts(env(vars, "ALLOW_SOURCE_URL_HOSTS", "").as_str()),
        ayah_align_mode: chars::to_lower(chars::trim(env(vars, "AYAH_ALIGN_MODE", "v2").as_str()).as_str()),
        ayah_align_v2_assets_dir: env(vars, "AYAH_ALIGN_V2_ASSETS_DIR", "/data/alignment/v2"),
        ayah_word_time_upgrade: env(vars, "AYAH_WORD_TIME_UPGRADE", "smooth"),
        ayah_align_v2_ref_del_cost_cap: env_f64_opt(vars, "AYAH_ALIGN_V2_REF_DEL_COST_CAP", Some(S::milli(750))),
        ayah_align_v2_obs_ins_cost_cap: env_f64_opt(vars, "AYAH_ALIGN_V2_OBS_INS_COST_CAP", None),
        stream_jwt_secret: chars::trim(env(vars, "STREAM_JWT_SECRET", "").as_str()),
        stream_jwt_audience: chars::trim(env(vars, "STREAM_JWT_AUDIENCE", "inference_stream").as_str()),
        stream_auth_grace_s: env_usize(vars, "STREAM_AUTH_GRACE_S", 10) as u64,
        guess_top_k: env_usize(vars, "GUESS_TOP_K", 5),
        guess_per_surah_top_n: env_usize(vars, "GUESS_PER_SURAH_TOP_N", 3),
        guess_query_operator: env(vars, "GUESS_QUERY_OPERATOR", "OR"),
        guess_rank_mode: env(vars, "GUESS_RANK_MODE", "sum_top_score"),
        guess_max_query_tokens: env_usize(vars, "GUESS_MAX_QUERY_TOKENS", 24),
        guess_max_hits: env_usize(vars, "GUESS_MAX_HITS", 800),
        demo_enabled: env_bool(vars, "DEMO_ENABLED", false),
        demo_allowed_origins: parse_csv_urls(env(vars, "DEMO_ALLOWED_ORIGINS", "*").as_str()),
        demo_max_audio_duration_s: env_usize(vars, "DEMO_MAX_AUDIO_DURATION_S", 60),
        demo_max_upload_bytes: env_usize(vars, "DEMO_MAX_UPLOAD_BYTES", 26214400),
        demo_rate_limit_per_min: env_usize(vars, "DEMO_RATE_LIMIT_PER_MIN", 10),
    }
}

/// How streams are heard, as far as the environment says.
pub struct StreamTuning<S> {
    pub no_audio_stop_after_s: S,
    pub silence_dbfs_threshold: S,
    pub silence_skip_after_s: S,
    pub silence_stop_after_s: S,
    pub tail_context_s: S,
    pub full_refresh_every_s: S,
}

/// A number that is the default where the environment says none.
pub open spec fn number_or<S>(v: Option<EnvVar<S>>, default: S) -> S {
    match number_of(v, Some(default)) {
        Some(x) => x,
        None => default,
    }
}

fn env_number_or<S: Scalar>(vars: &[EnvVar<S>], name: &str, default: S) -> (r: S)
    ensures
        r == number_or(var_of(vars@, name@), default),
{
    match env_f64_opt(vars, name, Some(default)) {
        Some(x) => x,
        None => default,
    }
}

/// Reads how streams are heard from the environment.
pub fn load_stream_tuning<S: Scalar>(vars: &[EnvVar<S>]) -> (r: StreamTuning<S>)
    ensures
        r.no_audio_stop_after_s == number_or(var_of(vars@, "STREAM_NO_AUDIO_TIMEOUT_S"@), S::whole_spec(30)),
        r.silence_dbfs_threshold == number_or(var_of(vars@, "STREAM_SILENCE_DBFS_THRESHOLD"@), S::whole_spec(0).minus_spec(S::whole_spec(45))),
        r.silence_skip_after_s == number_or(var_of(vars@, "STREAM_SILENCE_SKIP_AFTER_S"@), S::milli_spec(1200)),
        r.silence_stop_after_s == number_or(var_of(vars@, "STREAM_SILENCE_TIMEOUT_S"@), S::whole_spec(60)),
        r.tail_context_s == number_or(var_of(vars@, "STREAM_TAIL_CONTEXT_S"@), S::whole_spec(4)),
        r.full_refresh_every_s == number_or(var_of(vars@, "STREAM_FULL_REFRESH_EVERY_S"@), S::whole_spec(60)),
{
    StreamTuning {
        no_audio_stop_after_s: env_number_or(vars, "STREAM_NO_AUDIO_TIMEOUT_S", S::whole(30)),
        silence_dbfs_threshold: env_number_or(vars, "STREAM_SILENCE_DBFS_THRESHOLD", S::whole(0).minus(S::whole(45))),
        silence_skip_after_s: env_number_or(vars, "STREAM_SILENCE_SKIP_AFTER_S", S::milli(1200)),
        silence_stop_after_s: env_number_or(vars, "STREAM_SILENCE_TIMEOUT_S", S::whole(60)),
        tail_context_s: env_number_or(vars, "STREAM_TAIL_CONTEXT_S", S::whole(4)),
        full_refresh_every_s: env_number_or(vars, "STREAM_FULL_REFRESH_EVERY_S", S::whole(60)),
    }
}

/// Of variables with one name the first counts.
pub proof fn law_first_variable_counts<S>(vars: Seq<EnvVar<S>>, name: Seq<char>, i: int)
    requires
        0 <= i <= vars.len(),
        forall|j: int| 0 <= j < i ==> (#[trigger] vars[j]).name@ != name,
        i < vars.len() ==> vars[i].name@ == name,
    ensures
        i < vars.len() ==> var_of(vars, name) == Some(vars[i]),
        i == vars.len() ==> var_of(vars, name) is None,
    decreases vars.len(),
{
    if i > 0 {
        assert(vars[0].name@ != name);
        let rest = vars.skip(1);
        assert forall|j: int| 0 <= j < i - 1 implies (#[trigger] rest[j]).name@ != name by {
            assert(rest[j] == vars[j + 1]);
        }
        law_first_variable_counts(rest, name, i - 1);
    }
}

/// A switch goes by the word in its variable, in small letters and without the space
/// around it; without a variable, or by another word, it stays as it is.
pub proof fn law_switches_go_by_their_word<S>(v: EnvVar<S>, default: bool)
    ensures
        ({
            let w = chars::lowercase(chars::trimmed(v.value@));
            &&& w == "1"@ || w == "true"@ || w == "yes"@ || w == "on"@ ==> switch_of(Some(v), default)
            &&& w == "0"@ || w == "false"@ || w == "no"@ || w == "off"@ ==> !switch_of(Some(v), default)
            &&& switch_of(Some(v), default) != default ==> says_on(w) || says_off(w)
        }),
        switch_of::<S>(None, default) == default,
{
    reveal_strlit("1");
    reveal_strlit("true");
    reveal_strlit("yes");
    reveal_strlit("on");
    reveal_strlit("0");
    reveal_strlit("false");
    reveal_strlit("no");
    reveal_strlit("off");
    assert("0"@[0] == '0' && "false"@[0] == 'f' && "no"@[0] == 'n' && "off"@[0] == 'o');
    assert("1"@[0] == '1' && "true"@[0] == 't' && "yes"@[0] == 'y' && "on"@[0] == 'o');
    assert("0"@.len() == 1 && "false"@.len() == 5 && "no"@.len() == 2 && "off"@.len() == 3);
    assert("1"@.len() == 1 && "true"@.len() == 4 && "yes"@.len() == 3 && "on"@.len() == 2);
    let w = chars::lowercase(chars::trimmed(v.value@));
    assert(says_on(w) ==> !says_off(w));
}

/// A count is the number that its variable spells, and else what it is without one.
pub proof fn law_counts_are_spelled<S>(v: EnvVar<S>, n: nat, default: usize)
    requires
        n <= usize::MAX,
        v.value@ == chars::decimal(n),
    ensures
        count_of(Some(v), default) == n,
        count_of::<S>(None, default) == default,
{
    chars::law_decimal_spells_the_number(n);
    lemma_decimal_is_plain(n);
    chars::lemma_trimmed_stays(v.value@);
}

proof fn lemma_decimal_is_plain(n: nat)
    ensures
        chars::decimal(n).len() > 0,
        '0' <= chars::decimal(n)[0] <= '9',
        '0' <= chars::decimal(n).last() <= '9',
    decreases n,
{
    if n >= 10 {
        lemma_decimal_is_plain(n / 10);
        assert(chars::decimal(n)[0] == chars::decimal(n / 10)[0]);
    }
}

/// A number may be switched off by a word; else it is what its variable spells, or what
/// it is without one.
pub proof fn law_numbers_may_be_off<S>(v: EnvVar<S>, default: Option<S>)
    ensures
        ({
            let w = chars::lowercase(chars::trimmed(v.value@));
            let off = w == "none"@ || w == "null"@ || w == "off"@ || w == "false"@ || w == "disabled"@;
            &&& chars::trimmed(v.value@).len() == 0 ==> number_of(Some(v), default) == default
            &&& chars::trimmed(v.value@).len() > 0 && off ==> number_of(Some(v), default) is None
            &&& chars::trimmed(v.value@).len() > 0 && !off && v.number is Some ==> number_of(Some(v), default) == v.number
            &&& !off && v.number is None ==> number_of(Some(v), default) == default
        }),
        number_of(None, default) == default,
{
}

/// A list holds its items without the space around them, and no empty ones.
pub proof fn law_lists_hold_their_items(parts: Seq<Seq<char>>)
    ensures
        list_items(parts) == parts.map_values(|p: Seq<char>| chars::trimmed(p)).filter(|p: Seq<char>| p.len() > 0),
        lower_items(parts) == parts.map_values(|p: Seq<char>| chars::lowercase(chars::trimmed(p))).filter(
            |p: Seq<char>| p.len() > 0,
        ),
    decreases parts.len(),
{
    reveal(Seq::filter);
    let f = |p: Seq<char>| chars::trimmed(p);
    let g = |p: Seq<char>| chars::lowercase(chars::trimmed(p));
    if parts.len() > 0 {
        law_lists_hold_their_items(parts.drop_last());
        assert(parts.map_values(f).drop_last() =~= parts.drop_last().map_values(f));
        assert(parts.map_values(g).drop_last() =~= parts.drop_last().map_values(g));
    }
}

/// The address ranges of a list are those of its parts that name one.
pub proof fn law_ranges_are_read_one_by_one(parts: Seq<Seq<char>>, part: Seq<char>)
    ensures
        net::parsed_net(chars::trimmed(part)) matches Some(p) ==> readable_nets(parts.push(part)) == readable_nets(
            parts,
        ).push(p),
        net::parsed_net(chars::trimmed(part)) is None ==> readable_nets(parts.push(part)) == readable_nets(parts),
{
    assert(parts.push(part).drop_last() =~= parts);
}

/// The transcribers are those of the list, or the single one where the list names none,
/// each without slashes at its end.
pub proof fn law_transcribers_are_listed(list: Seq<char>, single: Seq<char>, i: int)
    requires
        0 <= i < transcribers(list, single).len(),
    ensures
        ({
            let items = list_items(chars::split_on(list, ','));
            let r = transcribers(list, single);
            &&& items.len() == 0 ==> r == seq![streaming::without_slashes(single)]
            &&& items.len() > 0 ==> r.len() == items.len() && r[i] == streaming::without_slashes(items[i])
            &&& r[i].len() > 0 ==> r[i].last() != '/'
        }),
{
    let items = list_items(chars::split_on(list, ','));
    if items.len() == 0 {
        lemma_no_slash_at_end(single);
        assert(transcribers(list, single) =~= seq![streaming::without_slashes(single)]);
    } else {
        lemma_no_slash_at_end(items[i]);
    }
}

proof fn lemma_no_slash_at_end(s: Seq<char>)
    ensures
        streaming::without_slashes(s).len() > 0 ==> streaming::without_slashes(s).last() != '/',
    decreases s.len(),
{
    if s.len() > 0 && s.last() == '/' {
        lemma_no_slash_at_end(s.drop_last());
    }
}

/// Where nothing is set, the settings are these.
pub proof fn law_unset_settings_have_defaults<S: Scalar>(s: Settings<S>, vars: Seq<EnvVar<S>>)
    requires
        s.are_read_from(vars),
        forall|name: Seq<char>| (#[trigger] var_of(vars, name)) is None,
    ensures
        !s.enforce_allow_cidrs_with_api_key && !s.internal_streaming_test_enabled && !s.demo_enabled,
        s.job_cleanup_enabled && s.job_cleanup_startup,
        s.job_retention_s == 24 * 3600 && s.job_cleanup_interval_s == 3600 && s.job_cleanup_max_delete_per_run == 200,
        s.max_queue_length == 32 && s.max_upload_bytes == 200 * 1024 * 1024,
        s.worker_concurrency == 2 && s.rust_transcribe_max_inflight == 2,
        s.ayah_align_v2_ref_del_cost_cap == Some(S::milli_spec(750)) && s.ayah_align_v2_obs_ins_cost_cap is None,
        s.stream_auth_grace_s == 10,
        s.guess_top_k == 5 && s.guess_per_surah_top_n == 3 && s.guess_max_query_tokens == 24 && s.guess_max_hits == 800,
        s.demo_max_audio_duration_s == 60 && s.demo_max_upload_bytes == 25 * 1024 * 1024,
        s.demo_rate_limit_per_min == 10,
        s.data_dir@ == "/data"@ && s.quran_db_path@ == "/data/quran.db"@,
        s.guess_query_operator@ == "OR"@ && s.guess_rank_mode@ == "sum_top_score"@ && s.ayah_word_time_upgrade@
            == "smooth"@,
        s.transcriber_url@ == "http://transcriber:9000"@,
{
}

} // verus!
