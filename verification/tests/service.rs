use quran_asr_api::access::{
    bearer_token, content_type_is_json, host_allowed, require_allow_cidrs, require_internal_access,
    require_internal_streaming_test, require_stream_access, stream_token, Denied, StreamClaims,
};
use quran_asr_api::cleanup::{cleanup_interval, CleanupRun, Visit};
use quran_asr_api::config;
use quran_asr_api::config::{
    env_bool, env_f64_opt, env_usize, load_settings, load_stream_tuning, parse_allow_cidrs, parse_csv_hosts,
    parse_csv_urls, read_transcriber_urls, EnvVar, Settings,
};
use quran_asr_api::demo::DemoRateLimiter;
use quran_asr_api::jobs::{
    add_piece, find_input_path, next_queue_step, plan_wait, poll_job, query_params, read_guess_params,
    read_source_request, unquote, JobMeta, Poll, QueueStep,
};
use quran_asr_api::json::Json;
use quran_asr_api::net::{Address, Cidr};
use quran_asr_api::replies::{
    admit_demo_audio, admit_demo_job, admit_demo_session, admit_job, admit_session, queue_length, Refusal,
};
use quran_asr_api::scalar::Thousandths;
use quran_asr_api::transcriber_pool::TranscriberPool;

type T = Thousandths;

fn t(count: i64) -> T {
    Thousandths { count }
}

fn var(name: &str, value: &str) -> EnvVar<T> {
    let number = value.trim().parse::<f64>().ok().map(|x| t((x * 1000.0).round() as i64));
    EnvVar { name: name.to_string(), value: value.to_string(), number }
}

fn v4(a: u8, b: u8, c: u8, d: u8) -> Address {
    Address { v6: false, bits: u32::from_be_bytes([a, b, c, d]) as u128 }
}

fn settings(vars: &[EnvVar<T>]) -> Settings<T> {
    load_settings(vars)
}

#[test]
fn settings_have_defaults() {
    let s = settings(&[]);
    assert_eq!(s.api_key, "");
    assert_eq!(s.allow_cidrs.len(), 5);
    assert_eq!(s.allow_cidrs[0], Cidr { v6: false, addr: 0x6440_0000, prefix_len: 10 });
    assert!(!s.enforce_allow_cidrs_with_api_key && !s.internal_streaming_test_enabled);
    assert_eq!((s.data_dir.as_str(), s.quran_db_path.as_str()), ("/data", "/data/quran.db"));
    assert!(s.job_cleanup_enabled && s.job_cleanup_startup);
    assert_eq!((s.job_retention_s, s.job_cleanup_interval_s), (86400, 3600));
    assert_eq!((s.job_cleanup_max_delete_per_run, s.max_queue_length, s.max_upload_bytes), (200, 32, 209715200));
    assert_eq!((s.worker_concurrency, s.rust_transcribe_max_inflight), (2, 2));
    assert_eq!(s.transcriber_urls, vec!["http://transcriber:9000"]);
    assert!(s.allow_source_url_hosts.is_empty());
    assert_eq!((s.ayah_align_mode.as_str(), s.ayah_word_time_upgrade.as_str()), ("v2", "smooth"));
    assert_eq!(s.ayah_align_v2_assets_dir, "/data/alignment/v2");
    assert_eq!(s.ayah_align_v2_ref_del_cost_cap, Some(t(750)));
    assert_eq!(s.ayah_align_v2_obs_ins_cost_cap, None);
    assert_eq!((s.stream_jwt_audience.as_str(), s.stream_auth_grace_s), ("inference_stream", 10));
    assert_eq!((s.guess_top_k, s.guess_per_surah_top_n, s.guess_max_query_tokens, s.guess_max_hits), (5, 3, 24, 800));
    assert_eq!((s.guess_query_operator.as_str(), s.guess_rank_mode.as_str()), ("OR", "sum_top_score"));
    assert!(!s.demo_enabled);
    assert_eq!(s.demo_allowed_origins, vec!["*"]);
    assert_eq!((s.demo_max_audio_duration_s, s.demo_max_upload_bytes, s.demo_rate_limit_per_min), (60, 26214400, 10));
}

#[test]
fn settings_follow_the_environment() {
    let s = settings(&[
        var("API_KEY", "  secret "),
        var("ALLOW_CIDRS", "10.1.2.3/16, bad, fd00::/8"),
        var("AYAH_ALIGN_MODE", " AUTO "),
        var("TRANSCRIBER_URLS", " http://a:1// , ,http://b:2"),
        var("ALLOW_SOURCE_URL_HOSTS", "Example.COM, *.CDN.net"),
        var("AYAH_ALIGN_V2_REF_DEL_COST_CAP", "off"),
        var("AYAH_ALIGN_V2_OBS_INS_COST_CAP", "1.5"),
        var("DEMO_ENABLED", "Yes"),
        var("JOB_RETENTION_S", " 7"),
        var("MAX_QUEUE_LENGTH", "9"),
    ]);
    assert_eq!(s.api_key, "secret");
    assert_eq!(
        s.allow_cidrs,
        vec![
            Cidr { v6: false, addr: 0x0a01_0203, prefix_len: 16 },
            Cidr { v6: true, addr: 0xfd00u128 << 112, prefix_len: 8 },
        ]
    );
    assert_eq!(s.ayah_align_mode, "auto");
    assert_eq!(s.transcriber_urls, vec!["http://a:1", "http://b:2"]);
    assert_eq!(s.allow_source_url_hosts, vec!["example.com", "*.cdn.net"]);
    assert_eq!(s.ayah_align_v2_ref_del_cost_cap, None);
    assert_eq!(s.ayah_align_v2_obs_ins_cost_cap, Some(t(1500)));
    assert!(s.demo_enabled);
    // Only digits are read as a count.
    assert_eq!((s.job_retention_s, s.max_queue_length), (86400, 9));
}

#[test]
fn single_values_are_read() {
    let vars = [var("A", " On "), var("B", "maybe"), var("C", "12"), var("D", ""), var("E", "Disabled"), var("F", "x")];
    assert_eq!(config::env(&vars, "A", "z"), " On ");
    assert_eq!(config::env(&vars, "Z", "z"), "z");
    assert!(env_bool(&vars, "A", false) && env_bool(&vars, "B", true) && !env_bool(&vars, "B", false));
    assert_eq!(env_usize(&vars, "C", 5), 12);
    assert_eq!(env_usize(&vars, "D", 5), 5);
    assert_eq!(env_f64_opt(&vars, "C", None), Some(t(12000)));
    assert_eq!(env_f64_opt(&vars, "D", Some(t(1))), Some(t(1)));
    assert_eq!(env_f64_opt(&vars, "E", Some(t(1))), None);
    assert_eq!(env_f64_opt(&vars, "F", Some(t(1))), Some(t(1)));
    assert_eq!(parse_csv_urls(" A ,,b"), vec!["A", "b"]);
    assert_eq!(parse_csv_hosts(" A ,,b"), vec!["a", "b"]);
    assert!(parse_allow_cidrs("10.0.0.0/33,x,").is_empty());
    assert_eq!(read_transcriber_urls(" , ", "http://one/"), vec!["http://one"]);
    let tuning = load_stream_tuning(&[var("STREAM_TAIL_CONTEXT_S", "none"), var("STREAM_SILENCE_TIMEOUT_S", "90")]);
    assert_eq!(tuning.no_audio_stop_after_s, t(30_000));
    assert_eq!(tuning.silence_dbfs_threshold, t(-45_000));
    assert_eq!(tuning.silence_skip_after_s, t(1_200));
    assert_eq!(tuning.silence_stop_after_s, t(90_000));
    assert_eq!(tuning.tail_context_s, t(4_000));
    assert_eq!(tuning.full_refresh_every_s, t(60_000));
}

#[test]
fn ranges_cover_their_addresses() {
    let net = parse_allow_cidrs("172.16.0.0/12,0.0.0.0/0,fd00::/8,::/0,1.2.3.4/32");
    assert!(net[0].contains(v4(172, 31, 255, 255)) && !net[0].contains(v4(172, 32, 0, 0)));
    assert!(net[1].contains(v4(255, 255, 255, 255)));
    let six = Address { v6: true, bits: 0xfd12u128 << 112 };
    assert!(net[2].contains(six) && net[3].contains(six) && !net[1].contains(six));
    assert!(net[4].contains(v4(1, 2, 3, 4)) && !net[4].contains(v4(1, 2, 3, 5)));
    for (range, ip) in [("10.5.0.0/13", "10.7.255.255/32"), ("10.5.0.0/13", "10.8.0.0/32"), ("fe80::/10", "febf::1/128")] {
        let outer = range.parse::<ipnet::IpNet>().unwrap();
        let wanted = outer.contains(&ip.parse::<ipnet::IpNet>().unwrap());
        let one = parse_allow_cidrs(ip)[0];
        let a = Address { v6: one.v6, bits: one.addr };
        assert_eq!(parse_allow_cidrs(range)[0].contains(a), wanted);
    }
}

#[test]
fn addresses_are_required_without_a_key() {
    let s = settings(&[]);
    assert_eq!(require_internal_access(None, Some(v4(10, 0, 0, 1)), &s), Ok(()));
    assert_eq!(require_internal_access(None, Some(v4(8, 8, 8, 8)), &s), Err(Denied::Forbidden));
    assert_eq!(require_internal_access(None, None, &s), Err(Denied::Forbidden));
    assert_eq!(require_allow_cidrs(Some(v4(8, 8, 8, 8)), &[]), Ok(()));
    assert_eq!(require_allow_cidrs(None, &[]), Err(Denied::Forbidden));
}

#[test]
fn keys_open_or_refuse() {
    let s = settings(&[var("API_KEY", "k")]);
    assert_eq!(require_internal_access(Some("Bearer k"), None, &s), Ok(()));
    assert_eq!(require_internal_access(Some("bearer  k "), None, &s), Ok(()));
    assert_eq!(require_internal_access(Some("Bearer x"), Some(v4(10, 0, 0, 1)), &s), Err(Denied::Unauthorized));
    assert_eq!(require_internal_access(Some("BEARER k"), Some(v4(10, 0, 0, 1)), &s), Err(Denied::Unauthorized));
    assert_eq!(require_internal_access(None, Some(v4(10, 0, 0, 1)), &s), Err(Denied::Unauthorized));
    let both = settings(&[var("API_KEY", "k"), var("ENFORCE_ALLOW_CIDRS_WITH_API_KEY", "1")]);
    assert_eq!(require_internal_access(Some("Bearer k"), Some(v4(8, 8, 8, 8)), &both), Err(Denied::Forbidden));
    assert_eq!(require_internal_access(Some("Bearer k"), Some(v4(127, 0, 0, 1)), &both), Ok(()));
    assert_eq!(bearer_token("Bearer  a"), Some(" a".to_string()));
    assert_eq!(bearer_token("Basic a"), None);
}

#[test]
fn test_page_needs_all_three() {
    let ip = Some(v4(10, 0, 0, 1));
    let off = settings(&[var("INTERNAL_STREAMING_TEST_KEY", "k")]);
    assert_eq!(require_internal_streaming_test(Some("k"), ip, &off), Err(Denied::NotFound));
    let on = settings(&[var("INTERNAL_STREAMING_TEST_ENABLED", "1"), var("INTERNAL_STREAMING_TEST_KEY", "k")]);
    assert_eq!(require_internal_streaming_test(Some(" k "), ip, &on), Ok(()));
    assert_eq!(require_internal_streaming_test(Some("k"), Some(v4(8, 8, 8, 8)), &on), Err(Denied::Forbidden));
    assert_eq!(require_internal_streaming_test(Some("x"), ip, &on), Err(Denied::Unauthorized));
    assert_eq!(require_internal_streaming_test(None, ip, &on), Err(Denied::Unauthorized));
    let keyless = settings(&[var("INTERNAL_STREAMING_TEST_ENABLED", "1")]);
    assert_eq!(require_internal_streaming_test(Some(""), ip, &keyless), Err(Denied::Unauthorized));
}

#[test]
fn streams_are_open_to_their_token() {
    let s = settings(&[var("API_KEY", "k")]);
    let claims = |sid: &str, role: &str| StreamClaims { sid: Some(sid.to_string()), role: Some(role.to_string()), exp: 99 };
    let far = Some(v4(8, 8, 8, 8));
    assert_eq!(require_stream_access(Some(&claims("s1", "admin")), "s1", None, None, far, &s), Ok(Some(99)));
    let wrong = claims("s2", "admin");
    assert_eq!(require_stream_access(Some(&wrong), "s1", None, None, far, &s), Err(Denied::Unauthorized));
    let guest = claims("s1", "guest");
    assert_eq!(require_stream_access(Some(&guest), "s1", None, Some("Bearer k"), far, &s), Ok(None));
    assert_eq!(stream_token(Some("Bearer  tok "), "secret"), Some("tok".to_string()));
    assert_eq!(stream_token(Some("Bearer tok"), ""), None);
    assert_eq!(stream_token(Some("Bearer   "), "secret"), None);
    assert_eq!(stream_token(None, "secret"), None);
}

#[test]
fn hosts_follow_the_rules() {
    let rules = |r: &[&str]| r.iter().map(|s| s.to_string()).collect::<Vec<String>>();
    assert!(host_allowed("anything", &rules(&[])));
    assert!(host_allowed(" Example.com ", &rules(&["example.COM"])));
    assert!(!host_allowed("sub.example.com", &rules(&["example.com"])));
    assert!(host_allowed("a.b.example.com", &rules(&["*.example.com"])));
    assert!(host_allowed("example.com", &rules(&["", "*.example.com"])));
    assert!(!host_allowed("badexample.com", &rules(&["*.example.com"])));
    assert!(!host_allowed("", &rules(&["*.example.com", ""])));
    assert!(content_type_is_json(Some("Application/JSON; charset=utf-8")));
    assert!(!content_type_is_json(Some("text/plain")) && !content_type_is_json(None));
}

#[test]
fn refusals_have_status_and_message() {
    assert_eq!(admit_job(Err(Denied::Unauthorized), 0).unwrap_err().status(), 401);
    assert_eq!(admit_job(Err(Denied::Forbidden), 1).unwrap_err().message(false), "forbidden");
    assert_eq!(admit_job(Ok(()), 0), Err(Refusal::QueueFull));
    assert_eq!(admit_job(Ok(()), 1), Ok(()));
    assert_eq!(admit_demo_job(false, 1), Err(Refusal::RateLimited));
    assert_eq!(admit_demo_job(true, 0), Err(Refusal::QueueFull));
    assert_eq!(admit_demo_audio(t(60_000), 60), Ok(()));
    assert_eq!(admit_demo_audio(t(60_001), 60), Err(Refusal::AudioTooLong));
    assert_eq!((Refusal::AudioTooLong.status(), Refusal::AudioTooLong.message(true)), (400, "audio too long"));
    assert_eq!(admit_session(Ok(()), false), Err(Refusal::NoAssets));
    assert_eq!(admit_demo_session(true, true), Ok(()));
    assert_eq!(Refusal::Access(Denied::NotFound).status(), 404);
    assert_eq!(Refusal::RateLimited.status(), 429);
    assert_eq!(Refusal::QueueFull.message(true), "queue full, try again later");
    assert_eq!(Refusal::QueueLost.message(true), "queue full");
    assert_eq!(Refusal::NoAssets.message(false), "streaming requires AYAH_ALIGN_MODE=v2 assets");
    assert_eq!(Refusal::NoAssets.message(true), "streaming not available on this instance");
    assert_eq!(Refusal::MissingFile.message(true), "missing audio file");
    assert_eq!((Refusal::MissingFile.status(), Refusal::MissingSourceUrl.status()), (400, 400));
    assert_eq!((Refusal::JobNotFound.status(), Refusal::SessionNotFound.status()), (404, 404));
    assert_eq!(Refusal::SessionNotFound.message(false), "session not found");
    assert_eq!((queue_length(32, 30), queue_length(1, 5)), (2, 0));
}

#[test]
fn requests_are_limited_by_the_minute() {
    let mut limiter = DemoRateLimiter::new(2);
    let s = 1_000_000_000u64;
    assert!(limiter.check("a", 0));
    assert!(limiter.check("a", 30 * s));
    assert!(!limiter.check("a", 59 * s));
    assert!(limiter.check("b", 59 * s));
    // The first request is a minute old now.
    assert!(limiter.check("a", 60 * s));
    assert!(!limiter.check("a", 61 * s));
    assert!(limiter.check("a", 90 * s));
    assert!(!DemoRateLimiter::new(0).check("a", 0));
}

#[test]
fn jobs_go_through_their_states() {
    let mut m: JobMeta<T> = JobMeta::queued("j", "f.m4a", "audio/mp4", 7, t(1));
    assert_eq!((m.status.as_str(), m.created_at, m.size_bytes), ("queued", t(1), 7));
    m.start(t(2));
    assert_eq!((m.status.as_str(), m.started_at, m.updated_at, m.finished_at), ("running", Some(t(2)), t(2), None));
    m.finish(t(3));
    assert_eq!((m.status.as_str(), m.finished_at, m.error.clone()), ("done", Some(t(3)), None));
    m.fail(t(4), "oops");
    assert_eq!((m.status.as_str(), m.error.as_deref(), m.created_at), ("error", Some("oops"), t(1)));
}

#[test]
fn jobs_end_as_their_work_does() {
    let mut m: JobMeta<T> = JobMeta::queued("j", "f.m4a", "audio/mp4", 7, t(1));
    m.start(t(2));
    m.settle(Ok(()), t(3));
    assert_eq!((m.status.as_str(), m.finished_at, m.updated_at), ("done", Some(t(3)), t(3)));
    assert_eq!((m.error.clone(), m.started_at), (None, Some(t(2))));
    m.settle(Err("oops"), t(4));
    assert_eq!((m.status.as_str(), m.finished_at, m.error.as_deref()), ("error", Some(t(4)), Some("oops")));
}

/// The steps of handing in a job that the workers take or do not.
fn queue_steps(taken: bool) -> Vec<QueueStep> {
    let mut steps = vec![QueueStep::WriteRequest];
    while !matches!(steps[steps.len() - 1], QueueStep::Accept | QueueStep::Refuse) {
        let last = steps[steps.len() - 1];
        // What else fails does not matter.
        steps.push(next_queue_step(last, last == QueueStep::Send && taken));
    }
    steps
}

#[test]
fn jobs_that_cannot_be_sent_are_taken_back() {
    let tried = [QueueStep::WriteRequest, QueueStep::Enter, QueueStep::Send];
    let taken = queue_steps(true);
    assert_eq!((&taken[..3], &taken[3..]), (&tried[..], &[QueueStep::Accept][..]));
    let refused = queue_steps(false);
    let back = [QueueStep::Forget, QueueStep::Discard, QueueStep::Refuse];
    assert_eq!((&refused[..3], &refused[3..]), (&tried[..], &back[..]));
    assert_eq!(next_queue_step(QueueStep::Accept, false), QueueStep::Accept);
    assert_eq!(next_queue_step(QueueStep::Refuse, true), QueueStep::Refuse);
}

#[test]
fn clients_wait_as_they_ask() {
    assert_eq!(plan_wait(None, None, false, 0), None);
    assert_eq!(plan_wait(Some(true), Some(5), false, 0), Some(5));
    assert_eq!(plan_wait(Some(true), Some(-1), false, 0), None);
    assert_eq!(plan_wait(None, None, true, 120), Some(120));
    assert_eq!(poll_job(Some("done"), t(9), t(1)), Poll::Ended);
    assert_eq!(poll_job(Some("running"), t(1), t(1)), Poll::TimedOut);
    assert_eq!(poll_job::<T>(None, t(0), t(1)), Poll::Again);
}

#[test]
fn uploads_are_bounded() {
    assert_eq!(add_piece(5, 5, 10), Ok(10));
    assert_eq!(add_piece(5, 6, 10), Err(11));
    assert_eq!(add_piece(u64::MAX, 6, 10), Err(u64::MAX));
    let q = read_source_request(" http://x ", Some("  "), Some(" audio/ogg ")).unwrap();
    assert_eq!((q.source_url.as_str(), q.filename.as_str()), ("http://x", "source.m4a"));
    assert_eq!(q.content_type.as_deref(), Some("audio/ogg"));
    assert!(read_source_request("  ", Some("f"), None).is_none());
    assert_eq!(read_source_request("u", Some(" f "), None).unwrap().filename, "f");
}

#[test]
fn requests_to_transcribers_carry_what_is_set() {
    let mut values: Vec<Option<String>> = vec![None; 7];
    values[0] = Some("\"ar\"".to_string());
    values[2] = Some("1.5".to_string());
    values[6] = Some("8".to_string());
    let q: Vec<(String, String)> = query_params(&values).into_iter().map(|p| (p.key, p.value)).collect();
    let wanted = [("language", "ar"), ("patience", "1.5"), ("batch_size", "8")];
    assert_eq!(q, wanted.iter().map(|(a, b)| (a.to_string(), b.to_string())).collect::<Vec<_>>());
    assert_eq!(unquote("\"\"a\"b\""), "a\"b");
    assert_eq!(unquote("\"\"\""), "");
}

#[test]
fn guesses_follow_the_request() {
    let s = settings(&[]);
    let int = |i: i64| Json::Number { unsigned: None, signed: Some(i), value: t(i * 1000) };
    let cfg: Json<T> = Json::Object(vec![
        ("top_k".to_string(), int(0)),
        ("max_hits".to_string(), int(17)),
        ("rank_mode".to_string(), Json::Text { text: "hybrid".to_string(), spelled: None }),
        ("max_query_tokens".to_string(), Json::Null),
    ]);
    let g = read_guess_params(&cfg, &s);
    assert_eq!((g.top_k, g.max_hits, g.max_query_tokens, g.per_surah_top_n), (1, 17, 24, 3));
    assert_eq!((g.rank_mode.as_str(), g.query_operator.as_str()), ("hybrid", "OR"));
    let input: Json<T> = Json::Object(vec![("filename".to_string(), Json::Text { text: "../x.wav".to_string(), spelled: None })]);
    assert_eq!(find_input_path("/d", "j", &input, "y"), "/d/jobs/j/input/x.wav");
    assert_eq!(find_input_path::<T>("/d", "j", &Json::Null, "y"), "/d/jobs/j/input/y");
}

#[test]
fn clean_up_keeps_what_is_needed() {
    let mut run = CleanupRun::new(10, 1);
    assert_eq!(run.visit::<T>(false, None, t(0)), Visit::Keep);
    let mut m: JobMeta<T> = JobMeta::queued("j", "f", "c", 0, t(0));
    assert_eq!(run.visit(true, Some(&m), t(99_000)), Visit::Keep);
    m.finish(t(90_000));
    assert_eq!(run.visit(true, Some(&m), t(99_999)), Visit::Keep);
    assert_eq!(run.visit(true, Some(&m), t(100_000)), Visit::Delete);
    assert_eq!(run.visit::<T>(true, None, t(0)), Visit::AskAge);
    assert_eq!(run.judge_age(9), Visit::Keep);
    assert_eq!(run.judge_age(10), Visit::Delete);
    assert!(!run.settle_removal(false));
    assert!(run.settle_removal(true));
    assert_eq!(run.visit(true, Some(&m), t(100_000)), Visit::Stop);
    let s = run.stats;
    assert_eq!((s.scanned, s.deleted, s.skipped_active, s.skipped_young, s.errors), (5, 1, 1, 2, 1));
    assert!(run.is_notable() && !CleanupRun::new(0, 0).is_notable());
    assert_eq!((CleanupRun::new(0, 0).retention_s, CleanupRun::new(0, 0).max_delete), (1, 1));
    assert_eq!((cleanup_interval(5), cleanup_interval(3600)), (60, 3600));
}

#[test]
fn requests_go_to_the_least_busy() {
    let urls = ["http://a", " ", "http://b", "http://c"].iter().map(|s| s.to_string()).collect();
    let mut pool = TranscriberPool::new(urls);
    assert_eq!(pool.urls(), &["http://a", "http://b", "http://c"]);
    let a = pool.pick();
    let b = pool.pick();
    let c = pool.pick();
    assert_eq!((a.url(), b.url(), c.url()), ("http://a", "http://b", "http://c"));
    pool.release(b);
    // Turn three begins at the first, which is busy.
    let again = pool.pick();
    assert_eq!(again.url(), "http://b");
    pool.release(a);
    pool.release(c);
    pool.release(again);
    assert_eq!(pool.pick().url(), "http://b");
    let mut none = TranscriberPool::new(vec![]);
    let lease = none.pick();
    assert_eq!(lease.url(), "http://transcriber:9000");
    none.release(lease);
}
