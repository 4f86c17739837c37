//! How requests are refused.

use vstd::prelude::*;

use crate::access::Denied;
use crate::scalar::Scalar;

verus! {

/// Why a request is refused.
#[derive(Clone, Copy, Debug, PartialEq, Eq, Structural)]
pub enum Refusal {
    Access(Denied),
    /// A client makes too many requests.
    RateLimited,
    /// No more jobs are taken at the moment.
    QueueFull,
    /// The last place in the queue went to another job.
    QueueLost,
    /// There is nothing to align with.
    NoAssets,
    /// The audio lasts longer than the demonstration takes.
    AudioTooLong,
    MissingFile,
    MissingSourceUrl,
    JobNotFound,
    SessionNotFound,
}

pub open spec fn denied_status(d: Denied) -> u16 {
    match d {
        Denied::Unauthorized => 401,
        Denied::Forbidden => 403,
        Denied::NotFound => 404,
    }
}

/// The status code of a refusal.
pub open spec fn status_of(r: Refusal) -> u16 {
    match r {
        Refusal::Access(d) => denied_status(d),
        Refusal::RateLimited => 429,
        Refusal::QueueFull => 503,
        Refusal::QueueLost => 503,
        Refusal::NoAssets => 503,
        Refusal::AudioTooLong => 400,
        Refusal::MissingFile => 400,
        Refusal::MissingSourceUrl => 400,
        Refusal::JobNotFound => 404,
        Refusal::SessionNotFound => 404,
    }
}

/// What a client is told. The demonstration words some of it differently.
pub open spec fn message_of(r: Refusal, demo: bool) -> Seq<char> {
    match r {
        Refusal::Access(_) => "forbidden"@,
        Refusal::RateLimited => "rate limit exceeded, try again later"@,
        Refusal::QueueFull => if demo {
            "queue full, try again later"@
        } else {
            "queue full"@
        },
        Refusal::QueueLost => "queue full"@,
        Refusal::NoAssets => if demo {
            "streaming not available on this instance"@
        } else {
            "streaming requires AYAH_ALIGN_MODE=v2 assets"@
        },
        Refusal::AudioTooLong => "audio too long"@,
        Refusal::MissingFile => if demo {
            "missing audio file"@
        } else {
            "missing file"@
        },
        Refusal::MissingSourceUrl => "missing source_url"@,
        Refusal::JobNotFound => "job not found"@,
        Refusal::SessionNotFound => "session not found"@,
    }
}

impl Refusal {
    pub fn status(self) -> (r: u16)
        ensures
            r == status_of(self),
    {
        match self {
            Refusal::Access(d) => match d {
                Denied::Unauthorized => 401,
                Denied::Forbidden => 403,
                Denied::NotFound => 404,
            },
            Refusal::RateLimited => 429,
            Refusal::QueueFull => 503,
            Refusal::QueueLost => 503,
            Refusal::NoAssets => 503,
            Refusal::AudioTooLong => 400,
            Refusal::MissingFile => 400,
            Refusal::MissingSourceUrl => 400,
            Refusal::JobNotFound => 404,
            Refusal::SessionNotFound => 404,
        }
    }

    pub fn message(self, demo: bool) -> (r: &'static str)
        ensures
            r@ == message_of(self, demo),
    {
        match self {
            Refusal::Access(_) => "forbidden",
            Refusal::RateLimited => "rate limit exceeded, try again later",
            Refusal::QueueFull => if demo {
                "queue full, try again later"
            } else {
                "queue full"
            },
            Refusal::QueueLost => "queue full",
            Refusal::NoAssets => if demo {
                "streaming not available on this instance"
            } else {
                "streaming requires AYAH_ALIGN_MODE=v2 assets"
            },
            Refusal::AudioTooLong => "audio too long",
            Refusal::MissingFile => if demo {
                "missing audio file"
            } else {
                "missing file"
            },
            Refusal::MissingSourceUrl => "missing source_url",
            Refusal::JobNotFound => "job not found",
            Refusal::SessionNotFound => "session not found",
        }
    }
}

/// Every refusal is told as an error of the client or of the service.
pub proof fn law_refusals_are_errors(r: Refusal)
    ensures
        400 <= status_of(r) < 600,
{
}

/// A job is refused to those without access, and to all while the queue is full.
pub fn admit_job(access: Result<(), Denied>, queue_room: usize) -> (r: Result<(), Refusal>)
    ensures
        r == (match access {
            Err(d) => Err::<(), Refusal>(Refusal::Access(d)),
            Ok(_) => if queue_room == 0 {
                Err::<(), Refusal>(Refusal::QueueFull)
            } else {
                Ok::<(), Refusal>(())
            },
        }),
{
    match access {
        Err(d) => Err(Refusal::Access(d)),
        Ok(_) => if queue_room == 0 {
            Err(Refusal::QueueFull)
        } else {
            Ok(())
        },
    }
}

/// A job of the demonstration is refused to those who ask too often, and to all
/// while the queue is full.
pub fn admit_demo_job(within_limit: bool, queue_room: usize) -> (r: Result<(), Refusal>)
    ensures
        r == (if !within_limit {
            Err::<(), Refusal>(Refusal::RateLimited)
        } else if queue_room == 0 {
            Err::<(), Refusal>(Refusal::QueueFull)
        } else {
            Ok::<(), Refusal>(())
        }),
{
    if !within_limit {
        Err(Refusal::RateLimited)
    } else if queue_room == 0 {
        Err(Refusal::QueueFull)
    } else {
        Ok(())
    }
}

/// The demonstration refuses audio that lasts longer than `max_audio_duration_s`.
pub fn admit_demo_audio<S: Scalar>(duration_s: S, max_audio_duration_s: usize) -> (r: Result<(), Refusal>)
    ensures
        r == (if S::whole_spec(max_audio_duration_s as nat).rank() < duration_s.rank() {
            Err::<(), Refusal>(Refusal::AudioTooLong)
        } else {
            Ok::<(), Refusal>(())
        }),
{
    if S::whole(max_audio_duration_s as u64).below(duration_s) {
        Err(Refusal::AudioTooLong)
    } else {
        Ok(())
    }
}

/// A session is refused to those without access, and to all while there is
/// nothing to align with.
pub fn admit_session(access: Result<(), Denied>, has_assets: bool) -> (r: Result<(), Refusal>)
    ensures
        r == (match access {
            Err(d) => Err::<(), Refusal>(Refusal::Access(d)),
            Ok(_) => if has_assets {
                Ok::<(), Refusal>(())
            } else {
                Err::<(), Refusal>(Refusal::NoAssets)
            },
        }),
{
    match access {
        Err(d) => Err(Refusal::Access(d)),
        Ok(_) => if has_assets {
            Ok(())
        } else {
            Err(Refusal::NoAssets)
        },
    }
}

/// A session of the demonstration is refused to those who ask too often, and to
/// all while there is nothing to align with.
pub fn admit_demo_session(within_limit: bool, has_assets: bool) -> (r: Result<(), Refusal>)
    ensures
        r == (if !within_limit {
            Err::<(), Refusal>(Refusal::RateLimited)
        } else if has_assets {
            Ok::<(), Refusal>(())
        } else {
            Err::<(), Refusal>(Refusal::NoAssets)
        }),
{
    if !within_limit {
        Err(Refusal::RateLimited)
    } else if has_assets {
        Ok(())
    } else {
        Err(Refusal::NoAssets)
    }
}

/// How many jobs wait, as far as the room that is left tells.
pub fn queue_length(max_queue_length: usize, room: usize) -> (r: usize)
    ensures
        r == (if max_queue_length < room {
            0
        } else {
            max_queue_length - room
        }),
{
    max_queue_length.saturating_sub(room)
}

/// Who lacks the right gets 401, 403 or 404; who asks too often 429; who asks for what is
/// not there 404; who asks wrongly 400; and who asks at a bad time 503.
pub proof fn law_refusals_tell_the_reason(r: Refusal)
    ensures
        status_of(r) == 401 <==> r == Refusal::Access(Denied::Unauthorized),
        status_of(r) == 403 <==> r == Refusal::Access(Denied::Forbidden),
        status_of(r) == 404 <==> r == Refusal::Access(Denied::NotFound) || r is JobNotFound || r is SessionNotFound,
        status_of(r) == 429 <==> r is RateLimited,
        status_of(r) == 503 <==> r is QueueFull || r is QueueLost || r is NoAssets,
        status_of(r) == 400 <==> r is AudioTooLong || r is MissingFile || r is MissingSourceUrl,
{
}

} // verus!
