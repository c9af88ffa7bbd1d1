//! Names of the output files of a run.
//!
//! Each task has several outputs, each saved in its own file of the output
//! directory. The file names are made of the task name and a suffix telling
//! which output the file holds.

use crate::task::{
    find_suffix, lemma_suffix_from, lemma_task_name_round_trip, spec_ends_with, spec_task,
    spec_task_of_file, spec_task_of_file_name, suffix, suffix_at, suffix_from, task_name, FileNameError, TaskId,
};
use crate::text::{chars_of, push_str, string_of};
use crate::trace::writer::EventsFileFormat;
use vstd::prelude::*;

verus! {

broadcast use crate::task::lemma_spec_task, crate::task::lemma_task_eta;

/// An output file of a task.
#[derive(Debug, PartialEq, Eq, Clone, Copy, Structural)]
pub enum LimeFile {
    Events(TaskId, EventsFileFormat),
    Infos(TaskId),
    Models(TaskId),
    Jobs(TaskId),
}

/// The file of task `id` whose name ends with the `k`-th known suffix.
pub open spec fn file_of_suffix(k: int, id: TaskId) -> LimeFile {
    if k == 0 {
        LimeFile::Events(id, EventsFileFormat::Json)
    } else if k == 1 {
        LimeFile::Events(id, EventsFileFormat::Protobuf)
    } else if k == 2 {
        LimeFile::Infos(id)
    } else if k == 3 {
        LimeFile::Models(id)
    } else {
        LimeFile::Jobs(id)
    }
}

/// The index of the suffix of a file's name.
pub open spec fn suffix_index(f: LimeFile) -> int {
    match f {
        LimeFile::Events(_, EventsFileFormat::Json) => 0,
        LimeFile::Events(_, EventsFileFormat::Protobuf) => 1,
        LimeFile::Infos(_) => 2,
        LimeFile::Models(_) => 3,
        LimeFile::Jobs(_) => 4,
    }
}

/// The task a file belongs to.
pub open spec fn file_task(f: LimeFile) -> TaskId {
    match f {
        LimeFile::Events(t, _) => t,
        LimeFile::Infos(t) => t,
        LimeFile::Models(t) => t,
        LimeFile::Jobs(t) => t,
    }
}

/// The name of a file: the task name, then the suffix of the output.
pub open spec fn spec_file_name(f: LimeFile) -> Seq<char> {
    task_name(file_task(f).spec_pid(), file_task(f).spec_version()) + suffix_at(suffix_index(f))
}

/// The output file a name designates, or why it designates none.
pub open spec fn spec_lime_file(fname: Seq<char>) -> Result<LimeFile, FileNameError> {
    match spec_task_of_file(fname) {
        Ok((pid, version)) => Ok(file_of_suffix(suffix_from(fname, 0)->0, spec_task(pid, version))),
        Err(e) => Err(e),
    }
}

impl LimeFile {
    /// The output file named `fname`, such as `123-2.events.json`.
    pub fn try_from_filename(fname: &str) -> (r: Result<LimeFile, FileNameError>)
        ensures
            r == spec_lime_file(fname@),
    {
        let task_id = match TaskId::try_from_filename(fname) {
            Ok(t) => t,
            Err(e) => return Err(e),
        };
        let name = chars_of(fname);
        match find_suffix(name.as_slice()) {
            Some(0) => Ok(LimeFile::Events(task_id, EventsFileFormat::Json)),
            Some(1) => Ok(LimeFile::Events(task_id, EventsFileFormat::Protobuf)),
            Some(2) => Ok(LimeFile::Infos(task_id)),
            Some(3) => Ok(LimeFile::Models(task_id)),
            Some(_) => Ok(LimeFile::Jobs(task_id)),
            None => Err(FileNameError::UnknownSuffix),
        }
    }

    /// The task this file belongs to.
    pub fn task(&self) -> (r: TaskId)
        ensures
            r == file_task(*self),
    {
        match self {
            LimeFile::Events(t, _) => *t,
            LimeFile::Infos(t) => *t,
            LimeFile::Models(t) => *t,
            LimeFile::Jobs(t) => *t,
        }
    }

    /// The name of the file.
    pub fn file_name(&self) -> (r: String)
        ensures
            r@ == spec_file_name(*self),
    {
        let k: usize = match self {
            LimeFile::Events(_, EventsFileFormat::Json) => 0,
            LimeFile::Events(_, EventsFileFormat::Protobuf) => 1,
            LimeFile::Infos(_) => 2,
            LimeFile::Models(_) => 3,
            LimeFile::Jobs(_) => 4,
        };
        let mut out: Vec<char> = Vec::new();
        self.task().push_name(&mut out);
        push_str(&mut out, suffix(k));
        proof {
            let t = file_task(*self);
            assert(out@ == Seq::<char>::empty() + task_name(t.spec_pid(), t.spec_version())
                + suffix_at(k as int));
        }
        string_of(&out)
    }
}

proof fn lemma_not_ends_with(x: Seq<char>, a: Seq<char>, b: Seq<char>, j: int)
    requires
        0 <= j < a.len(),
        j < b.len(),
        a[a.len() - 1 - j] != b[b.len() - 1 - j],
    ensures
        !spec_ends_with(x + a, b),
{
    let s = x + a;
    if spec_ends_with(s, b) {
        let t = s.subrange(s.len() - b.len(), s.len() as int);
        assert(t[b.len() - 1 - j] == s[s.len() - 1 - j]);
        assert(s[s.len() - 1 - j] == a[a.len() - 1 - j]);
    }
}

proof fn lemma_known_suffixes()
    ensures
        forall|k: int| 0 <= k < 5 ==> #[trigger] suffix_at(k).len() >= 10,
        suffix_at(0)[11] == 'n' && suffix_at(0)[5] == 't',
        suffix_at(1)[9] == 'b',
        suffix_at(2)[10] == 'n' && suffix_at(2)[4] == 'o',
        suffix_at(3)[11] == 'n' && suffix_at(3)[5] == 'l',
        suffix_at(4)[9] == 'n' && suffix_at(4)[3] == 'b',
        suffix_at(0).len() == 12 && suffix_at(1).len() == 10 && suffix_at(2).len() == 11
            && suffix_at(3).len() == 12 && suffix_at(4).len() == 10,
{
    reveal_strlit(".events.json");
    reveal_strlit(".events.pb");
    reveal_strlit(".infos.json");
    reveal_strlit(".models.json");
    reveal_strlit(".jobs.json");
    assert forall|k: int| 0 <= k < 5 implies #[trigger] suffix_at(k).len() >= 10 by {
        if k == 0 {
        } else if k == 1 {
        } else if k == 2 {
        } else if k == 3 {
        } else {
        }
    }
}

/// The name of a file designates that file.
pub proof fn lemma_file_name_round_trip(f: LimeFile)
    ensures
        spec_lime_file(spec_file_name(f)) == Ok::<LimeFile, FileNameError>(f),
{
    let t = file_task(f);
    let x = task_name(t.spec_pid(), t.spec_version());
    let k = suffix_index(f);
    let a = suffix_at(k);
    let name = x + a;
    lemma_known_suffixes();
    // The name ends with its own suffix and with no suffix tried before.
    assert(name.subrange(name.len() - a.len(), name.len() as int) =~= a);
    assert forall|j: int| 0 <= j < k implies !spec_ends_with(name, #[trigger] suffix_at(j)) by {
        if k == 1 || j == 1 {
            lemma_not_ends_with(x, a, suffix_at(j), 0);
        } else {
            lemma_not_ends_with(x, a, suffix_at(j), 6);
        }
    }
    assert forall|j: int| 0 <= j <= k implies suffix_from(name, j) == Some(k) by {
        lemma_suffix_from_at(name, j, k);
    }
    assert(name.take(name.len() - a.len()) =~= x);
    lemma_task_name_round_trip(t.spec_pid(), t.spec_version());
}

/// The name of a task followed by any known suffix, such as
/// `123-2.events.json`, is parsed back into the task.
pub proof fn lemma_task_file_name_round_trip(pid: u32, version: u32, k: int)
    requires
        0 <= k < 5,
    ensures
        spec_task_of_file_name(task_name(pid, version) + suffix_at(k)) == Ok::<TaskId, FileNameError>(
            spec_task(pid, version),
        ),
{
    let x = task_name(pid, version);
    let a = suffix_at(k);
    let name = x + a;
    lemma_known_suffixes();
    assert(name.subrange(name.len() - a.len(), name.len() as int) =~= a);
    assert forall|j: int| 0 <= j < k implies !spec_ends_with(name, #[trigger] suffix_at(j)) by {
        if k == 1 || j == 1 {
            lemma_not_ends_with(x, a, suffix_at(j), 0);
        } else {
            lemma_not_ends_with(x, a, suffix_at(j), 6);
        }
    }
    assert forall|j: int| 0 <= j <= k implies suffix_from(name, j) == Some(k) by {
        lemma_suffix_from_at(name, j, k);
    }
    assert(name.take(name.len() - a.len()) =~= x);
    lemma_task_name_round_trip(pid, version);
}

proof fn lemma_suffix_from_at(name: Seq<char>, j: int, k: int)
    requires
        0 <= j <= k < 5,
        spec_ends_with(name, suffix_at(k)),
        forall|i: int| 0 <= i < k ==> !spec_ends_with(name, #[trigger] suffix_at(i)),
    ensures
        suffix_from(name, j) == Some(k),
    decreases k - j,
{
    if j < k {
        lemma_suffix_from_at(name, j + 1, k);
    }
}

/// The `attempt`-th name tried for a new output directory made at the
/// formatted date `date`: `lime-<date>`, then `lime-<date>-a` to
/// `lime-<date>-z`; none after those.
pub open spec fn spec_unique_dir_name(date: Seq<char>, attempt: int) -> Option<Seq<char>> {
    if attempt == 0 {
        Some("lime-"@ + date)
    } else if 1 <= attempt <= 26 {
        Some("lime-"@ + date + seq!['-', ('a' as int + attempt - 1) as char])
    } else {
        None
    }
}

/// The `attempt`-th name tried for a new output directory made at the
/// formatted date `date`.
pub fn unique_dir_name(date: &str, attempt: usize) -> (r: Option<String>)
    ensures
        match spec_unique_dir_name(date@, attempt as int) {
            Some(n) => r matches Some(s) && s@ == n,
            None => r is None,
        },
{
    if attempt > 26 {
        return None;
    }
    let mut out: Vec<char> = Vec::new();
    push_str(&mut out, "lime-");
    push_str(&mut out, date);
    if attempt > 0 {
        out.push('-');
        let c: char = (97u8 + (attempt - 1) as u8) as char;
        out.push(c);
    }
    proof {
        if attempt == 0 {
            assert(out@ =~= "lime-"@ + date@);
        } else {
            assert(out@ =~= "lime-"@ + date@ + seq!['-', ('a' as int + attempt - 1) as char]);
        }
    }
    Some(string_of(&out))
}

/// An output directory of the tracer.
#[derive(Clone)]
pub struct LimeOutputDirectory {
    path: String,
}

impl LimeOutputDirectory {
    pub closed spec fn spec_path(&self) -> Seq<char> {
        self.path@
    }

    pub fn new(path: String) -> (r: Self)
        ensures
            r.spec_path() == path@,
    {
        Self { path }
    }

    /// The path of the output directory.
    pub fn path(&self) -> (r: &str)
        ensures
            r@ == self.spec_path(),
    {
        self.path.as_str()
    }

    /// The name, inside the directory, of the events file of `task_id`.
    pub fn events_file_name(&self, task_id: &TaskId, format: EventsFileFormat) -> (r: String)
        ensures
            r@ == spec_file_name(LimeFile::Events(*task_id, format)),
    {
        LimeFile::Events(*task_id, format).file_name()
    }
}

} // verus!
