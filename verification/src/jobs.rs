//! Transcription jobs from upload to result.

use vstd::prelude::*;

use crate::alignment_v2::{AlignError, AlignmentReport};
use crate::chars;
use crate::config::Settings;
use crate::json::Json;
use crate::scalar::Scalar;
use crate::state;

verus! {

// ---------------------------------------------------------------------------
// The life of a job

/// What is known of a job. Its status is `queued`, `running`, `done` or `error`.
pub struct JobMeta<S> {
    pub job_id: String,
    pub status: String,
    pub created_at: S,
    pub updated_at: S,
    pub started_at: Option<S>,
    pub finished_at: Option<S>,
    pub filename: String,
    pub content_type: String,
    pub size_bytes: u64,
    pub error: Option<String>,
}

/// The job has ended, well or not.
pub open spec fn is_ended(status: Seq<char>) -> bool {
    status == "done"@ || status == "error"@
}

pub fn has_ended(status: &str) -> (r: bool)
    ensures
        r == is_ended(status@),
{
    chars::same_text(status, "done") || chars::same_text(status, "error")
}

impl<S: Scalar> JobMeta<S> {
    /// A job that waits.
    pub fn queued(job_id: &str, filename: &str, content_type: &str, size_bytes: u64, now: S) -> (r: Self)
        ensures
            r.job_id@ == job_id@,
            r.status@ == "queued"@,
            r.created_at == now,
            r.updated_at == now,
            r.started_at is None,
            r.finished_at is None,
            r.filename@ == filename@,
            r.content_type@ == content_type@,
            r.size_bytes == size_bytes,
            r.error is None,
    {
        JobMeta {
            job_id: job_id.to_owned(),
            status: "queued".to_owned(),
            created_at: now,
            updated_at: now,
            started_at: None,
            finished_at: None,
            filename: filename.to_owned(),
            content_type: content_type.to_owned(),
            size_bytes,
            error: None,
        }
    }

    /// A worker takes the job up.
    pub fn start(&mut self, now: S)
        ensures
            final(self).status@ == "running"@,
            *final(self) == (JobMeta {
                status: final(self).status,
                updated_at: now,
                started_at: Some(now),
                ..*old(self)
            }),
    {
        self.status = "running".to_owned();
        self.updated_at = now;
        self.started_at = Some(now);
    }

    /// The result is there.
    pub fn finish(&mut self, now: S)
        ensures
            final(self).status@ == "done"@,
            *final(self) == (JobMeta {
                status: final(self).status,
                updated_at: now,
                finished_at: Some(now),
                ..*old(self)
            }),
    {
        self.status = "done".to_owned();
        self.updated_at = now;
        self.finished_at = Some(now);
    }

    /// The job failed.
    pub fn fail(&mut self, now: S, error: &str)
        ensures
            final(self).status@ == "error"@,
            final(self).error matches Some(e) && e@ == error@,
            *final(self) == (JobMeta {
                status: final(self).status,
                updated_at: now,
                finished_at: Some(now),
                error: final(self).error,
                ..*old(self)
            }),
    {
        self.status = "error".to_owned();
        self.updated_at = now;
        self.finished_at = Some(now);
        self.error = Some(error.to_owned());
    }

    /// A worker is through with the job: it is done, or failed with an error.
    pub fn settle(&mut self, outcome: Result<(), &str>, now: S)
        ensures
            match outcome {
                Ok(_) => final(self).status@ == "done"@ && final(self).error == old(self).error,
                Err(e) => final(self).status@ == "error"@ && (final(self).error matches Some(t) && t@ == e@),
            },
            is_ended(final(self).status@),
            *final(self) == (JobMeta {
                status: final(self).status,
                updated_at: now,
                finished_at: Some(now),
                error: final(self).error,
                ..*old(self)
            }),
    {
        match outcome {
            Ok(_) => self.finish(now),
            Err(e) => self.fail(now, e),
        }
    }

    /// The time that counts for how long a job is kept: when it ended, or when it
    /// last changed.
    pub open spec fn last_time(&self) -> S {
        match self.finished_at {
            Some(t) => t,
            None => self.updated_at,
        }
    }
}

// ---------------------------------------------------------------------------
// Handing in a job

/// What is done next for a job whose upload is stored.
#[derive(Clone, Copy, Debug, PartialEq, Eq, Structural)]
pub enum QueueStep {
    /// Its request is written beside the upload.
    WriteRequest,
    /// It becomes known as a job that waits.
    Enter,
    /// It is sent to the workers.
    Send,
    /// It is not known any more.
    Forget,
    /// Its directory is removed.
    Discard,
    /// It is told to be queued.
    Accept,
    /// It is refused.
    Refuse,
}

/// What follows a step that worked or did not. Only sending decides: a job that the
/// workers do not take is taken back.
pub open spec fn step_after(step: QueueStep, worked: bool) -> QueueStep {
    match step {
        QueueStep::WriteRequest => QueueStep::Enter,
        QueueStep::Enter => QueueStep::Send,
        QueueStep::Send => if worked {
            QueueStep::Accept
        } else {
            QueueStep::Forget
        },
        QueueStep::Forget => QueueStep::Discard,
        QueueStep::Discard => QueueStep::Refuse,
        QueueStep::Accept => QueueStep::Accept,
        QueueStep::Refuse => QueueStep::Refuse,
    }
}

pub fn next_queue_step(step: QueueStep, worked: bool) -> (r: QueueStep)
    ensures
        r == step_after(step, worked),
{
    match step {
        QueueStep::WriteRequest => QueueStep::Enter,
        QueueStep::Enter => QueueStep::Send,
        QueueStep::Send => if worked {
            QueueStep::Accept
        } else {
            QueueStep::Forget
        },
        QueueStep::Forget => QueueStep::Discard,
        QueueStep::Discard => QueueStep::Refuse,
        QueueStep::Accept => QueueStep::Accept,
        QueueStep::Refuse => QueueStep::Refuse,
    }
}

/// Where a job stands: whether it is known, and whether the workers have it.
pub struct Standing {
    pub known: bool,
    pub sent: bool,
}

/// What a step that worked or did not makes of a job.
pub open spec fn standing_after(s: Standing, step: QueueStep, worked: bool) -> Standing {
    match step {
        QueueStep::Enter => Standing { known: true, ..s },
        QueueStep::Send => Standing { sent: worked, ..s },
        QueueStep::Forget => Standing { known: false, ..s },
        _ => s,
    }
}

/// The step and the standing after one step for each outcome.
pub open spec fn handed_in(step: QueueStep, s: Standing, outcomes: Seq<bool>) -> (QueueStep, Standing)
    decreases outcomes.len(),
{
    if outcomes.len() == 0 {
        (step, s)
    } else {
        handed_in(step_after(step, outcomes[0]), standing_after(s, step, outcomes[0]), outcomes.skip(1))
    }
}

/// Whatever works and does not, a job that is handed in is accepted or refused after
/// five steps. One that is accepted is known and sent; one that is refused is
/// neither. It is refused exactly if it could not be sent.
pub proof fn law_refused_jobs_are_forgotten(outcomes: Seq<bool>)
    requires
        outcomes.len() >= 5,
    ensures
        handed_in(QueueStep::WriteRequest, Standing { known: false, sent: false }, outcomes) == (if outcomes[2] {
            (QueueStep::Accept, Standing { known: true, sent: true })
        } else {
            (QueueStep::Refuse, Standing { known: false, sent: false })
        }),
{
    let start = Standing { known: false, sent: false };
    let o1 = outcomes.skip(1);
    let o2 = o1.skip(1);
    let o3 = o2.skip(1);
    let o4 = o3.skip(1);
    let o5 = o4.skip(1);
    let entered = Standing { known: true, sent: false };
    assert(o2[0] == outcomes[2]);
    assert(handed_in(QueueStep::WriteRequest, start, outcomes) == handed_in(QueueStep::Enter, start, o1));
    assert(handed_in(QueueStep::Enter, start, o1) == handed_in(QueueStep::Send, entered, o2));
    if outcomes[2] {
        let taken = Standing { known: true, sent: true };
        assert(handed_in(QueueStep::Send, entered, o2) == handed_in(QueueStep::Accept, taken, o3));
        lemma_decided_stays(QueueStep::Accept, taken, o3);
    } else {
        assert(handed_in(QueueStep::Send, entered, o2) == handed_in(QueueStep::Forget, entered, o3));
        assert(handed_in(QueueStep::Forget, entered, o3) == handed_in(QueueStep::Discard, start, o4));
        assert(handed_in(QueueStep::Discard, start, o4) == handed_in(QueueStep::Refuse, start, o5));
        lemma_decided_stays(QueueStep::Refuse, start, o5);
    }
}

proof fn lemma_decided_stays(step: QueueStep, s: Standing, outcomes: Seq<bool>)
    requires
        step == QueueStep::Accept || step == QueueStep::Refuse,
    ensures
        handed_in(step, s, outcomes) == (step, s),
    decreases outcomes.len(),
{
    if outcomes.len() > 0 {
        lemma_decided_stays(step, s, outcomes.skip(1));
    }
}

// ---------------------------------------------------------------------------
// Waiting for a job

/// How long a client waits for a job.
pub open spec fn wait_of(wait: Option<bool>, timeout_s: Option<i64>, wait_default: bool, timeout_default: i64) -> Option<
    i64,
> {
    let w = match wait {
        Some(b) => b,
        None => wait_default,
    };
    let t = match timeout_s {
        Some(s) => s,
        None => timeout_default,
    };
    if w && t > 0 {
        Some(t)
    } else {
        None
    }
}

/// How many seconds a client waits, if it waits at all.
pub fn plan_wait(wait: Option<bool>, timeout_s: Option<i64>, wait_default: bool, timeout_default: i64) -> (r: Option<i64>)
    ensures
        r == wait_of(wait, timeout_s, wait_default, timeout_default),
{
    let w: bool = match wait {
        Some(b) => b,
        None => wait_default,
    };
    let t: i64 = match timeout_s {
        Some(s) => s,
        None => timeout_default,
    };
    if w && t > 0 {
        Some(t)
    } else {
        None
    }
}

#[derive(Clone, Copy, Debug, PartialEq, Eq, Structural)]
pub enum Poll {
    /// The job has ended.
    Ended,
    /// The time is up.
    TimedOut,
    /// Neither.
    Again,
}

/// What a waiting client does next; `status` is that of its job, if it is known.
pub fn poll_job<S: Scalar>(status: Option<&str>, now: S, deadline: S) -> (r: Poll)
    ensures
        r == (if status matches Some(s) && is_ended(s@) {
            Poll::Ended
        } else if deadline.rank() <= now.rank() {
            Poll::TimedOut
        } else {
            Poll::Again
        }),
{
    let ended: bool = match status {
        Some(s) => has_ended(s),
        None => false,
    };
    if ended {
        Poll::Ended
    } else if !now.below(deadline) {
        Poll::TimedOut
    } else {
        Poll::Again
    }
}

// ---------------------------------------------------------------------------
// Uploads

/// The size of an upload after one more piece, or the size that was too large.
pub open spec fn size_after(total: u64, piece: u64, max_bytes: u64) -> Result<u64, u64> {
    let sum = if total + piece > u64::MAX {
        u64::MAX
    } else {
        (total + piece) as u64
    };
    if sum > max_bytes {
        Err(sum)
    } else {
        Ok(sum)
    }
}

pub fn add_piece(total: u64, piece: u64, max_bytes: u64) -> (r: Result<u64, u64>)
    ensures
        r == size_after(total, piece, max_bytes),
{
    let sum: u64 = total.saturating_add(piece);
    if sum > max_bytes {
        Err(sum)
    } else {
        Ok(sum)
    }
}

/// The trimmed text, if there is one and it is not empty.
pub open spec fn filled(s: Option<&str>) -> Option<Seq<char>> {
    match s {
        Some(t) => if chars::trimmed(t@).len() == 0 {
            None
        } else {
            Some(chars::trimmed(t@))
        },
        None => None,
    }
}

pub fn read_filled(s: Option<&str>) -> (r: Option<String>)
    ensures
        match r {
            None => filled(s) is None,
            Some(t) => filled(s) == Some(t@),
        },
{
    match s {
        Some(t) => {
            let t = chars::trim(t);
            if t.as_str().is_empty() {
                None
            } else {
                Some(t)
            }
        },
        None => None,
    }
}

/// A request to fetch audio from elsewhere.
pub struct SourceRequest {
    pub source_url: String,
    pub filename: String,
    pub content_type: Option<String>,
}

/// The request that a client makes; none without an address.
pub fn read_source_request(source_url: &str, filename: Option<&str>, content_type: Option<&str>) -> (r: Option<
    SourceRequest,
>)
    ensures
        r is None <==> chars::trimmed(source_url@).len() == 0,
        r matches Some(q) ==> {
            &&& q.source_url@ == chars::trimmed(source_url@)
            &&& q.filename@ == (match filled(filename) {
                Some(f) => f,
                None => "source.m4a"@,
            })
            &&& match q.content_type {
                None => filled(content_type) is None,
                Some(t) => filled(content_type) == Some(t@),
            }
        },
{
    let url = chars::trim(source_url);
    if url.as_str().is_empty() {
        return None;
    }
    let filename = match read_filled(filename) {
        Some(f) => f,
        None => "source.m4a".to_owned(),
    };
    let content_type = read_filled(content_type);
    Some(SourceRequest { source_url: url, filename, content_type })
}

// ---------------------------------------------------------------------------
// Work

/// The name of a job's upload: the one in its request, or else the one that is
/// known of it.
pub open spec fn input_name_of<S: Scalar>(input: Json<S>, known: Seq<char>) -> Seq<char> {
    match input.field("filename"@) {
        Some(v) => match v.str_spec() {
            Some(t) => t,
            None => known,
        },
        None => known,
    }
}

pub fn find_input_name<S: Scalar>(input: &Json<S>, known: &str) -> (r: String)
    ensures
        r@ == input_name_of(*input, known@),
{
    match input.get("filename") {
        Some(v) => match v.as_str() {
            Some(t) => t.to_owned(),
            None => known.to_owned(),
        },
        None => known.to_owned(),
    }
}

/// Where a job's upload lies.
pub fn find_input_path<S: Scalar>(data_dir: &str, job_id: &str, input: &Json<S>, known: &str) -> (r: String)
    ensures
        r@ == state::job_input_path_of(data_dir@, job_id@, input_name_of(*input, known@)),
{
    state::job_input_path(data_dir, job_id, find_input_name(input, known).as_str())
}

/// Without the quotation marks at both ends.
pub open spec fn unquoted(s: Seq<char>) -> Seq<char> {
    unquoted_end(unquoted_start(s))
}

pub open spec fn unquoted_start(s: Seq<char>) -> Seq<char>
    decreases s.len(),
{
    if s.len() > 0 && s[0] == '"' {
        unquoted_start(s.skip(1))
    } else {
        s
    }
}

pub open spec fn unquoted_end(s: Seq<char>) -> Seq<char>
    decreases s.len(),
{
    if s.len() > 0 && s.last() == '"' {
        unquoted_end(s.drop_last())
    } else {
        s
    }
}

pub fn unquote(s: &str) -> (r: String)
    ensures
        r@ == unquoted(s@),
{
    let cs = chars::to_chars(s);
    let mut lo: usize = 0;
    assert(cs@.skip(0) =~= cs@);
    while lo < cs.len() && cs[lo] == '"'
        invariant
            lo <= cs@.len(),
            unquoted_start(cs@) == unquoted_start(cs@.skip(lo as int)),
        ensures
            lo <= cs@.len(),
            unquoted_start(cs@) == cs@.skip(lo as int),
        decreases cs@.len() - lo,
    {
        proof {
            assert(cs@.skip(lo as int)[0] == cs@[lo as int]);
            assert(cs@.skip(lo as int).skip(1) =~= cs@.skip(lo as int + 1));
        }
        lo = lo + 1;
    }
    let ghost rest = cs@.skip(lo as int);
    let mut hi: usize = cs.len();
    assert(cs@.subrange(lo as int, hi as int) =~= rest);
    while hi > lo && cs[hi - 1] == '"'
        invariant
            lo <= hi <= cs@.len(),
            unquoted_end(rest) == unquoted_end(cs@.subrange(lo as int, hi as int)),
        ensures
            lo <= hi <= cs@.len(),
            unquoted_end(rest) == cs@.subrange(lo as int, hi as int),
        decreases hi,
    {
        proof {
            let t = cs@.subrange(lo as int, hi as int);
            assert(t.last() == cs@[hi - 1]);
            assert(t.drop_last() =~= cs@.subrange(lo as int, hi - 1));
        }
        hi = hi - 1;
    }
    chars::from_chars(&cs, lo, hi)
}

/// The settings that a transcriber takes, in the order in which they are sent.
pub open spec fn transcriber_keys() -> Seq<Seq<char>> {
    seq![
        "language"@,
        "beam_size"@,
        "patience"@,
        "word_timestamps"@,
        "log_prob_threshold"@,
        "no_speech_threshold"@,
        "batch_size"@,
    ]
}

pub fn list_transcriber_keys() -> (r: Vec<&'static str>)
    ensures
        r@.map_values(|k: &str| k@) == transcriber_keys(),
{
    let r = vec![
        "language",
        "beam_size",
        "patience",
        "word_timestamps",
        "log_prob_threshold",
        "no_speech_threshold",
        "batch_size",
    ];
    assert(r@.map_values(|k: &str| k@) =~= transcriber_keys());
    r
}

/// A setting that is sent to a transcriber.
pub struct QueryParam {
    pub key: String,
    pub value: String,
}

pub open spec fn param_views(params: Seq<QueryParam>) -> Seq<(Seq<char>, Seq<char>)> {
    params.map_values(|p: QueryParam| (p.key@, p.value@))
}

/// The settings among the first `n` that are given, without quotation marks.
pub open spec fn given_params(values: Seq<Option<String>>, n: nat) -> Seq<(Seq<char>, Seq<char>)>
    decreases n,
{
    if n == 0 {
        Seq::empty()
    } else {
        let before = given_params(values, (n - 1) as nat);
        match values[n - 1] {
            Some(v) => before.push((transcriber_keys()[n - 1], unquoted(v@))),
            None => before,
        }
    }
}

/// What is sent to a transcriber, given the text of each setting in the order of
/// the keys; none where it is not set.
pub fn query_params(values: &[Option<String>]) -> (r: Vec<QueryParam>)
    requires
        values@.len() == transcriber_keys().len(),
    ensures
        param_views(r@) == given_params(values@, values@.len()),
{
    let keys = list_transcriber_keys();
    let mut out: Vec<QueryParam> = Vec::new();
    let mut i: usize = 0;
    assert(param_views(out@) =~= given_params(values@, 0));
    while i < values.len()
        invariant
            i <= values@.len(),
            values@.len() == transcriber_keys().len(),
            keys@.map_values(|k: &str| k@) == transcriber_keys(),
            param_views(out@) == given_params(values@, i as nat),
        decreases values@.len() - i,
    {
        let ghost before = param_views(out@);
        assert(keys@.map_values(|k: &str| k@).len() == keys@.len());
        assert(keys@.map_values(|k: &str| k@)[i as int] == keys@[i as int]@);
        match &values[i] {
            Some(v) => {
                let p = QueryParam { key: keys[i].to_owned(), value: unquote(v.as_str()) };
                out.push(p);
                assert(param_views(out@) =~= before.push((p.key@, p.value@)));
            },
            None => {},
        }
        i = i + 1;
    }
    out
}

/// How the chapter is guessed.
pub struct GuessParams {
    pub top_k: usize,
    pub per_surah_top_n: usize,
    pub query_operator: String,
    pub rank_mode: String,
    pub max_query_tokens: usize,
    pub max_hits: usize,
}

/// The count in a request, at least one; or the default.
pub open spec fn count_asked<S: Scalar>(cfg: Json<S>, key: Seq<char>, default: usize) -> usize {
    match cfg.field(key) {
        Some(Json::Number { unsigned, signed, value }) => match signed {
            Some(i) => if i < 1 {
                1
            } else {
                i as usize
            },
            None => default,
        },
        _ => default,
    }
}

fn read_count<S: Scalar>(cfg: &Json<S>, key: &str, default: usize) -> (r: usize)
    ensures
        r == count_asked(*cfg, key@, default),
{
    match cfg.get(key) {
        Some(v) => match v.as_i64() {
            Some(i) => if i < 1 {
                1
            } else {
                i as usize
            },
            None => default,
        },
        None => default,
    }
}

/// The text in a request, or the default.
pub open spec fn text_asked<S: Scalar>(cfg: Json<S>, key: Seq<char>, default: Seq<char>) -> Seq<char> {
    match cfg.field(key) {
        Some(v) => match v.str_spec() {
            Some(t) => t,
            None => default,
        },
        None => default,
    }
}

fn read_text<S: Scalar>(cfg: &Json<S>, key: &str, default: &str) -> (r: String)
    ensures
        r@ == text_asked(*cfg, key@, default@),
{
    match cfg.get(key) {
        Some(v) => match v.as_str() {
            Some(t) => t.to_owned(),
            None => default.to_owned(),
        },
        None => default.to_owned(),
    }
}

pub fn read_guess_params<S: Scalar>(cfg: &Json<S>, settings: &Settings<S>) -> (r: GuessParams)
    ensures
        r.top_k == count_asked(*cfg, "top_k"@, settings.guess_top_k),
        r.per_surah_top_n == count_asked(*cfg, "per_surah_top_n"@, settings.guess_per_surah_top_n),
        r.query_operator@ == text_asked(*cfg, "query_operator"@, settings.guess_query_operator@),
        r.rank_mode@ == text_asked(*cfg, "rank_mode"@, settings.guess_rank_mode@),
        r.max_query_tokens == count_asked(*cfg, "max_query_tokens"@, settings.guess_max_query_tokens),
        r.max_hits == count_asked(*cfg, "max_hits"@, settings.guess_max_hits),
{
    GuessParams {
        top_k: read_count(cfg, "top_k", settings.guess_top_k),
        per_surah_top_n: read_count(cfg, "per_surah_top_n", settings.guess_per_surah_top_n),
        query_operator: read_text(cfg, "query_operator", settings.guess_query_operator.as_str()),
        rank_mode: read_text(cfg, "rank_mode", settings.guess_rank_mode.as_str()),
        max_query_tokens: read_count(cfg, "max_query_tokens", settings.guess_max_query_tokens),
        max_hits: read_count(cfg, "max_hits", settings.guess_max_hits),
    }
}

/// A confident alignment with enough evidence says the chapter. One that crosses
/// from one chapter to another needs more confidence.
pub open spec fn chapter_of<S: Scalar>(outcome: Result<AlignmentReport<S>, AlignError>) -> Option<u16> {
    match outcome {
        Ok(t) => {
            let need = if t.start.surah == t.end.surah {
                S::milli_spec(350)
            } else {
                S::milli_spec(500)
            };
            if need.rank() <= t.confidence.rank() && (t.best.substitutions >= 6 || t.best.matches >= 4) {
                Some(t.start.surah)
            } else {
                None
            }
        },
        Err(_) => None,
    }
}

/// The chapter that takes the place of the guessed one, if the alignment is good
/// enough.
pub fn preferred_chapter<S: Scalar>(outcome: &Result<AlignmentReport<S>, AlignError>) -> (r: Option<u16>)
    ensures
        r == chapter_of(*outcome),
{
    match outcome {
        Ok(t) => {
            let need: S = if t.start.surah == t.end.surah {
                S::milli(350)
            } else {
                S::milli(500)
            };
            if !t.confidence.below(need) && (t.best.substitutions >= 6 || t.best.matches >= 4) {
                Some(t.start.surah)
            } else {
                None
            }
        },
        Err(_) => None,
    }
}

/// The chapter of a job.
#[derive(Clone, Copy, Debug, PartialEq, Eq, Structural)]
pub struct ChapterChoice {
    pub predicted_surah_id: Option<i64>,
    /// The alignment took the place of the guess.
    pub from_alignment: bool,
}

pub open spec fn chapter_choice<S: Scalar>(
    guessed: Option<i64>,
    outcome: Option<Result<AlignmentReport<S>, AlignError>>,
) -> ChapterChoice {
    match outcome {
        Some(o) => match chapter_of(o) {
            Some(c) => ChapterChoice { predicted_surah_id: Some(c as i64), from_alignment: true },
            None => ChapterChoice { predicted_surah_id: guessed, from_alignment: false },
        },
        None => ChapterChoice { predicted_surah_id: guessed, from_alignment: false },
    }
}

/// The chapter of a job: the one that was guessed, unless a good alignment says
/// another.
pub fn choose_chapter<S: Scalar>(
    guessed: Option<i64>,
    outcome: Option<&Result<AlignmentReport<S>, AlignError>>,
) -> (r: ChapterChoice)
    ensures
        r == chapter_choice(
            guessed,
            match outcome {
                None => None,
                Some(x) => Some(*x),
            },
        ),
{
    match outcome {
        Some(o) => match preferred_chapter(o) {
            Some(c) => ChapterChoice { predicted_surah_id: Some(c as i64), from_alignment: true },
            None => ChapterChoice { predicted_surah_id: guessed, from_alignment: false },
        },
        None => ChapterChoice { predicted_surah_id: guessed, from_alignment: false },
    }
}

/// Without evidence the guess stays.
pub proof fn law_fragments_do_not_override<S: Scalar>(outcome: Result<AlignmentReport<S>, AlignError>)
    requires
        outcome matches Ok(t) ==> t.best.substitutions < 6 && t.best.matches < 4,
    ensures
        chapter_of(outcome) is None,
{
}

/// An alignment within one chapter decides the chapter from a confidence of 0.35 on, one
/// over several from 0.50 on, if it has six paired words or four hits. Else the guess
/// stands.
pub proof fn law_sure_alignments_decide_the_chapter<S: Scalar>(guessed: Option<i64>, t: AlignmentReport<S>)
    ensures
        ({
            let one = t.start.surah == t.end.surah;
            let sure = (one && S::milli_spec(350).rank() <= t.confidence.rank()) || (!one && S::milli_spec(500).rank()
                <= t.confidence.rank());
            let enough = t.best.substitutions >= 6 || t.best.matches >= 4;
            let r = chapter_choice(guessed, Some(Ok(t)));
            &&& sure && enough ==> r.predicted_surah_id == Some(t.start.surah as i64) && r.from_alignment
            &&& !(sure && enough) ==> r.predicted_surah_id == guessed && !r.from_alignment
        }),
        chapter_choice::<S>(guessed, None).predicted_surah_id == guessed,
        !chapter_choice::<S>(guessed, None).from_alignment,
{
}

/// An upload is accepted piece by piece as long as all of it together is no larger than
/// it may be.
pub proof fn law_uploads_are_bounded(total: u64, a: u64, b: u64, max_bytes: u64)
    requires
        max_bytes < u64::MAX,
    ensures
        size_after(total, a, max_bytes) is Ok <==> total + a <= max_bytes,
        size_after(total, a, max_bytes) matches Ok(n) ==> n == total + a && (size_after(n, b, max_bytes) is Ok <==> total
            + a + b <= max_bytes),
{
}

/// A client waits only if it asks for it, or leaves it open where that is the rule, and
/// only for a positive time.
pub proof fn law_clients_wait_if_they_ask(wait: Option<bool>, timeout_s: Option<i64>, wait_default: bool, timeout_default: i64)
    ensures
        wait == Some(false) ==> wait_of(wait, timeout_s, wait_default, timeout_default) is None,
        wait is None && !wait_default ==> wait_of(wait, timeout_s, wait_default, timeout_default) is None,
        (wait == Some(true) || (wait is None && wait_default)) && timeout_s is Some && timeout_s->0 > 0 ==> wait_of(
            wait,
            timeout_s,
            wait_default,
            timeout_default,
        ) == timeout_s,
        (wait == Some(true) || (wait is None && wait_default)) && timeout_s is None && timeout_default > 0 ==> wait_of(
            wait,
            timeout_s,
            wait_default,
            timeout_default,
        ) == Some(timeout_default),
        timeout_s is Some && timeout_s->0 <= 0 ==> wait_of(wait, timeout_s, wait_default, timeout_default) is None,
{
}

/// What is asked for is at least one; a default stands where no whole number is asked
/// for.
pub proof fn law_asked_counts_are_positive<S: Scalar>(cfg: Json<S>, key: Seq<char>, default: usize)
    ensures
        cfg.field(key) is None ==> count_asked(cfg, key, default) == default,
        cfg.field(key) matches Some(Json::Number { unsigned, signed: Some(i), value }) ==> (i >= 1 && i <= usize::MAX
            ==> count_asked(cfg, key, default) == i) && (i < 1 ==> count_asked(cfg, key, default) == 1),
{
}

/// Quotation marks at both ends of a value are taken off, and nothing else.
pub proof fn law_values_lose_their_quotation_marks(s: Seq<char>)
    ensures
        s.len() > 0 && s[0] != '"' && s.last() != '"' ==> unquoted(s) == s,
        unquoted(s).len() > 0 ==> unquoted(s)[0] != '"' && unquoted(s).last() != '"',
        unquoted(seq!['"'] + s) == unquoted(s),
        unquoted(s.push('"')) == unquoted(s),
{
    assert((seq!['"'] + s).skip(1) =~= s);
    lemma_unquoted_push(s);
    assert(unquoted_start(s).push('"').drop_last() =~= unquoted_start(s));
    lemma_unquoted_start(s);
    lemma_unquoted_end(unquoted_start(s));
}

proof fn lemma_unquoted_push(s: Seq<char>)
    ensures
        unquoted_start(s).len() > 0 ==> unquoted_start(s.push('"')) == unquoted_start(s).push('"'),
        unquoted_start(s).len() == 0 ==> unquoted_start(s.push('"')).len() == 0,
    decreases s.len(),
{
    if s.len() == 0 {
        reveal_with_fuel(unquoted_start, 2);
        assert(s.push('"').skip(1) =~= s);
    } else if s[0] == '"' {
        lemma_unquoted_push(s.skip(1));
        assert(s.push('"').skip(1) =~= s.skip(1).push('"'));
    }
}

proof fn lemma_unquoted_start(s: Seq<char>)
    ensures
        unquoted_start(s).len() > 0 ==> unquoted_start(s)[0] != '"',
        unquoted_start(s).len() <= s.len(),
    decreases s.len(),
{
    if s.len() > 0 && s[0] == '"' {
        lemma_unquoted_start(s.skip(1));
    }
}

proof fn lemma_unquoted_end(s: Seq<char>)
    ensures
        unquoted_end(s).len() > 0 ==> unquoted_end(s).last() != '"' && unquoted_end(s)[0] == s[0],
        unquoted_end(s).len() <= s.len(),
    decreases s.len(),
{
    if s.len() > 0 && s.last() == '"' {
        lemma_unquoted_end(s.drop_last());
    }
}

/// A value that is given is handed on under its key, without its quotation marks; one
/// that is not given is left out.
pub proof fn law_given_values_are_handed_on(values: Seq<Option<String>>, n: nat, i: int)
    requires
        0 <= i < n <= values.len(),
        n <= 7,
    ensures
        values[i] matches Some(v) ==> given_params(values, n).contains((transcriber_keys()[i], unquoted(v@))),
        (forall|j: int| 0 <= j < n ==> (#[trigger] values[j]) is None) ==> given_params(values, n).len() == 0,
        (forall|j: int| 0 <= j < n ==> (#[trigger] values[j]) is Some) ==> given_params(values, n).len() == n,
    decreases n,
{
    let all = given_params(values, n);
    let before = given_params(values, (n - 1) as nat);
    if i < n - 1 {
        law_given_values_are_handed_on(values, (n - 1) as nat, i);
        if values[i] is Some {
            let x = (transcriber_keys()[i], unquoted(values[i]->0@));
            let k = choose|k: int| 0 <= k < before.len() && before[k] == x;
            assert(all[k] == x);
        }
    } else {
        if values[i] is Some {
            assert(all[all.len() - 1] == (transcriber_keys()[i], unquoted(values[i]->0@)));
        }
        if n > 1 {
            law_given_values_are_handed_on(values, (n - 1) as nat, n - 2);
        }
        assert(values[n - 1] is Some || values[n - 1] is None);
    }
}

/// A text that is blank is not given; another is given without the space around it.
pub proof fn law_blank_texts_are_not_given(s: &str)
    ensures
        filled(None) is None,
        chars::trimmed(s@).len() == 0 ==> filled(Some(s)) is None,
        chars::trimmed(s@).len() > 0 ==> filled(Some(s)) == Some(chars::trimmed(s@)),
{
}

/// A text that is asked for replaces the default; anything but a text does not.
pub proof fn law_asked_texts_replace_the_default<S: Scalar>(cfg: Json<S>, key: Seq<char>, default: Seq<char>)
    ensures
        cfg.field(key) matches Some(Json::Text { text, spelled }) ==> text_asked(cfg, key, default) == text@,
        !(cfg.field(key) matches Some(Json::Text { text, spelled })) ==> text_asked(cfg, key, default) == default,
        cfg.field("filename"@) matches Some(Json::Text { text, spelled }) ==> input_name_of(cfg, default) == text@,
        cfg.field("filename"@) is None ==> input_name_of(cfg, default) == default,
{
}

} // verus!
