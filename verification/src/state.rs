//! Where the files of a job are.
//!
//! Paths are texts whose components are separated by `/`.

use vstd::prelude::*;

use crate::chars;

verus! {

/// `rest` below `dir`; `rest` itself, if it is absolute.
pub open spec fn path_join(dir: Seq<char>, rest: Seq<char>) -> Seq<char> {
    if rest.len() > 0 && rest[0] == '/' {
        rest
    } else if dir.len() > 0 && dir.last() != '/' {
        dir.push('/') + rest
    } else {
        dir + rest
    }
}

pub fn join_path(dir: &str, rest: &str) -> (r: String)
    ensures
        r@ == path_join(dir@, rest@),
{
    let r = chars::to_chars(rest);
    if r.len() > 0 && r[0] == '/' {
        return rest.to_owned();
    }
    let d = chars::to_chars(dir);
    let mut out = dir.to_owned();
    if d.len() > 0 && d[d.len() - 1] != '/' {
        out.push('/');
    }
    out.append(rest);
    out
}

/// The last part of a path that names something: empty parts and `.` do not.
pub open spec fn last_named(parts: Seq<Seq<char>>) -> Option<Seq<char>>
    decreases parts.len(),
{
    if parts.len() == 0 {
        None
    } else if parts.last().len() == 0 || parts.last() == "."@ {
        last_named(parts.drop_last())
    } else {
        Some(parts.last())
    }
}

/// The name of the file that a path leads to; none where it leads up, or nowhere.
pub open spec fn file_name_of(path: Seq<char>) -> Option<Seq<char>> {
    match last_named(chars::split_on(path, '/')) {
        Some(n) => if n == ".."@ {
            None
        } else {
            Some(n)
        },
        None => None,
    }
}

pub fn file_name(path: &str) -> (r: Option<String>)
    ensures
        match r {
            None => file_name_of(path@) is None,
            Some(n) => file_name_of(path@) == Some(n@),
        },
{
    let parts = chars::split(path, '/');
    let ghost all = chars::views(parts@);
    let mut k: usize = parts.len();
    assert(all.take(k as int) =~= all);
    while k > 0
        invariant
            k <= parts@.len(),
            all == chars::views(parts@),
            all == chars::split_on(path@, '/'),
            last_named(all) == last_named(all.take(k as int)),
        decreases k,
    {
        let part = parts[k - 1].as_str();
        proof {
            assert(all[k - 1] == part@);
            assert(all.take(k as int).last() == part@);
            assert(all.take(k as int).drop_last() =~= all.take(k - 1));
        }
        if !part.is_empty() && !chars::same_text(part, ".") {
            if chars::same_text(part, "..") {
                return None;
            }
            return Some(part.to_owned());
        }
        k = k - 1;
    }
    None
}

/// A name for an upload: the name of the file that `filename` leads to, without
/// white space around it, if that is a name; `upload.bin` otherwise.
pub open spec fn sanitized(filename: Seq<char>) -> Seq<char> {
    match file_name_of(filename) {
        None => "upload.bin"@,
        Some(n) => {
            let t = chars::trimmed(n);
            if t.len() == 0 || t == "."@ || t == ".."@ {
                "upload.bin"@
            } else {
                t
            }
        },
    }
}

pub fn sanitize_upload_filename(filename: &str) -> (r: String)
    ensures
        r@ == sanitized(filename@),
{
    match file_name(filename) {
        None => "upload.bin".to_owned(),
        Some(n) => {
            let t = chars::trim(n.as_str());
            if t.as_str().is_empty() || chars::same_text(t.as_str(), ".") || chars::same_text(t.as_str(), "..") {
                "upload.bin".to_owned()
            } else {
                t
            }
        },
    }
}

/// A name within one directory: not empty, without `/`, and neither `.` nor `..`.
pub open spec fn is_plain_name(s: Seq<char>) -> bool {
    &&& s.len() > 0
    &&& forall|i: int| 0 <= i < s.len() ==> #[trigger] s[i] != '/'
    &&& s != "."@
    &&& s != ".."@
}

proof fn lemma_parts_have_no_sep(s: Seq<char>, sep: char)
    ensures
        forall|p: int, i: int|
            #![trigger chars::split_on(s, sep)[p][i]]
            0 <= p < chars::split_on(s, sep).len() && 0 <= i < chars::split_on(s, sep)[p].len() ==> chars::split_on(
                s,
                sep,
            )[p][i] != sep,
    decreases s.len(),
{
    chars::lemma_index_of_char(s, sep);
    match chars::index_of_char(s, sep) {
        None => {},
        Some(k) => {
            let rest = s.skip(k as int + 1);
            lemma_parts_have_no_sep(rest, sep);
            let parts = chars::split_on(s, sep);
            assert forall|p: int, i: int|
                #![trigger parts[p][i]]
                0 <= p < parts.len() && 0 <= i < parts[p].len() implies parts[p][i] != sep by {
                if p > 0 {
                    assert(parts[p] == chars::split_on(rest, sep)[p - 1]);
                }
            }
        },
    }
}

proof fn lemma_last_named(parts: Seq<Seq<char>>)
    ensures
        last_named(parts) matches Some(n) ==> n.len() > 0 && n != "."@ && exists|p: int|
            0 <= p < parts.len() && n == #[trigger] parts[p],
    decreases parts.len(),
{
    if parts.len() > 0 {
        lemma_last_named(parts.drop_last());
        if parts.last().len() == 0 || parts.last() == "."@ {
            match last_named(parts.drop_last()) {
                Some(n) => {
                    let p = choose|p: int| 0 <= p < parts.drop_last().len() && n == #[trigger] parts.drop_last()[p];
                    assert(n == parts[p]);
                },
                None => {},
            }
        } else {
            assert(parts.last() == parts[parts.len() - 1]);
        }
    }
}

/// An upload's name is a name within one directory, whatever was asked for.
pub proof fn law_sanitized_name_is_plain(filename: Seq<char>)
    ensures
        is_plain_name(sanitized(filename)),
{
    reveal_strlit("upload.bin");
    reveal_strlit(".");
    reveal_strlit("..");
    let parts = chars::split_on(filename, '/');
    lemma_last_named(parts);
    lemma_parts_have_no_sep(filename, '/');
    match file_name_of(filename) {
        None => {},
        Some(n) => {
            let p = choose|p: int| 0 <= p < parts.len() && n == #[trigger] parts[p];
            assert(forall|i: int| 0 <= i < n.len() ==> parts[p][i] != '/');
            chars::lemma_trimmed_part(n);
            let (a, b) = choose|a: int, b: int|
                0 <= a <= b <= n.len() && chars::trimmed(n) == #[trigger] n.subrange(a, b);
            assert forall|i: int| 0 <= i < chars::trimmed(n).len() implies #[trigger] chars::trimmed(n)[i]
                != '/' by {
                assert(n.subrange(a, b)[i] == n[a + i]);
                assert(parts[p][a + i] != '/');
            }
        },
    }
}

/// A name that was made plain stays as it is.
pub proof fn law_sanitizing_twice_changes_nothing(filename: Seq<char>)
    ensures
        sanitized(sanitized(filename)) == sanitized(filename),
{
    law_sanitized_name_is_plain(filename);
    reveal_strlit("upload.bin");
    let s = sanitized(filename);
    chars::lemma_index_of_char(s, '/');
    assert(chars::split_on(s, '/') == seq![s]);
    assert(seq![s].last() == s);
    assert(file_name_of(s) == Some(s));
    match file_name_of(filename) {
        None => {},
        Some(n) => {
            chars::lemma_trimmed_part(n);
        },
    }
    assert(!chars::is_space_spec(s[0]));
    assert(!chars::is_space_spec(s.last()));
    assert(chars::trimmed(s) == s);
}

pub open spec fn job_dir_of(data_dir: Seq<char>, job_id: Seq<char>) -> Seq<char> {
    path_join(path_join(data_dir, "jobs"@), job_id)
}

pub fn job_dir(data_dir: &str, job_id: &str) -> (r: String)
    ensures
        r@ == job_dir_of(data_dir@, job_id@),
{
    join_path(join_path(data_dir, "jobs").as_str(), job_id)
}

pub open spec fn job_input_path_of(data_dir: Seq<char>, job_id: Seq<char>, filename: Seq<char>) -> Seq<char> {
    path_join(path_join(job_dir_of(data_dir, job_id), "input"@), sanitized(filename))
}

pub fn job_input_path(data_dir: &str, job_id: &str, filename: &str) -> (r: String)
    ensures
        r@ == job_input_path_of(data_dir@, job_id@, filename@),
{
    let dir = join_path(job_dir(data_dir, job_id).as_str(), "input");
    join_path(dir.as_str(), sanitize_upload_filename(filename).as_str())
}

/// An upload lies directly in the input directory of its job.
pub proof fn law_input_stays_in_job_dir(data_dir: Seq<char>, job_id: Seq<char>, filename: Seq<char>)
    ensures
        ({
            let dir = path_join(job_dir_of(data_dir, job_id), "input"@);
            &&& job_input_path_of(data_dir, job_id, filename) == dir.push('/') + sanitized(filename)
            &&& is_plain_name(sanitized(filename))
        }),
{
    law_sanitized_name_is_plain(filename);
    reveal_strlit("input");
}

pub fn job_request_path(data_dir: &str, job_id: &str) -> (r: String)
    ensures
        r@ == path_join(job_dir_of(data_dir@, job_id@), "request.json"@),
{
    join_path(job_dir(data_dir, job_id).as_str(), "request.json")
}

pub fn job_result_path(data_dir: &str, job_id: &str) -> (r: String)
    ensures
        r@ == path_join(job_dir_of(data_dir@, job_id@), "result.json"@),
{
    join_path(job_dir(data_dir, job_id).as_str(), "result.json")
}

proof fn lemma_last_part(dir: Seq<char>, name: Seq<char>)
    requires
        forall|i: int| 0 <= i < name.len() ==> #[trigger] name[i] != '/',
    ensures
        chars::split_on(dir.push('/') + name, '/').len() > 0,
        chars::split_on(dir.push('/') + name, '/').last() == name,
    decreases dir.len(),
{
    chars::law_texts_are_split_at_separators(name, Seq::empty(), '/');
    chars::lemma_index_of_char(dir, '/');
    match chars::index_of_char(dir, '/') {
        None => {
            chars::law_texts_are_split_at_separators(dir, name, '/');
        },
        Some(k) => {
            let front = dir.take(k as int);
            let rest = dir.skip(k as int + 1);
            lemma_last_part(rest, name);
            chars::law_texts_are_split_at_separators(front, rest.push('/') + name, '/');
            assert(dir.push('/') + name =~= front.push('/') + (rest.push('/') + name));
        },
    }
}

/// An upload keeps its own name, without the directories in front of it.
pub proof fn law_uploads_keep_their_name(dir: Seq<char>, name: Seq<char>)
    requires
        is_plain_name(name),
        !chars::is_space_spec(name[0]),
        !chars::is_space_spec(name.last()),
    ensures
        sanitized(name) == name,
        sanitized(dir.push('/') + name) == name,
{
    lemma_last_part(dir, name);
    chars::law_texts_are_split_at_separators(name, Seq::empty(), '/');
    chars::lemma_trimmed_stays(name);
    assert(seq![name].last() == name);
}

/// Paths are joined by one slash.
pub proof fn law_paths_are_joined_by_a_slash(dir: Seq<char>, rest: Seq<char>)
    requires
        dir.len() > 0 && dir.last() != '/',
        rest.len() > 0 && rest[0] != '/',
    ensures
        path_join(dir, rest) == dir + seq!['/'] + rest,
        path_join(dir.push('/'), rest) == dir + seq!['/'] + rest,
        path_join(dir, seq!['/'] + rest) == seq!['/'] + rest,
{
    assert(dir.push('/') =~= dir + seq!['/']);
}

/// A job has a directory of its own among the jobs.
pub proof fn law_jobs_have_their_directory(data_dir: Seq<char>, job_id: Seq<char>)
    requires
        data_dir.len() > 0 && data_dir.last() != '/',
        job_id.len() > 0 && job_id[0] != '/',
    ensures
        job_dir_of(data_dir, job_id) == data_dir + "/jobs/"@ + job_id,
{
    reveal_strlit("jobs");
    reveal_strlit("/jobs/");
    assert(job_dir_of(data_dir, job_id) =~= data_dir + "/jobs/"@ + job_id);
}

} // verus!
