//! Task identifiers and the names of the files that hold their outputs.

use crate::text::{
    chars_of, dec_chars, lemma_numeral_digits, lemma_parse_numeral, parse_u32, push_dec,
    spec_parse_u32, string_of, is_dec_digit,
};
use vstd::prelude::*;

verus! {

/// Task identifier: a thread id and the version of its mapping.
#[derive(PartialEq, Eq, Hash, Copy, Clone, Debug, PartialOrd, Ord, Structural)]
pub struct TaskId {
    pid: u32,
    version: u32,
}

/// Why a file name names no output file of a task.
#[derive(PartialEq, Eq, Copy, Clone, Debug, Structural)]
pub enum FileNameError {
    /// The name has none of the known suffixes.
    UnknownSuffix,
    /// The part before the suffix has no `-`.
    NoSeparator,
    /// The thread id or the version is not a `u32`.
    InvalidNumber,
}

/// The known suffixes of output files, in the order in which they are tried.
pub open spec fn suffix_at(k: int) -> Seq<char> {
    if k == 0 {
        ".events.json"@
    } else if k == 1 {
        ".events.pb"@
    } else if k == 2 {
        ".infos.json"@
    } else if k == 3 {
        ".models.json"@
    } else {
        ".jobs.json"@
    }
}

pub open spec fn spec_ends_with(s: Seq<char>, suffix: Seq<char>) -> bool {
    suffix.len() <= s.len() && s.subrange(s.len() - suffix.len(), s.len() as int) == suffix
}

/// The first known suffix, from the `k`-th on, that ends `s`.
pub open spec fn suffix_from(s: Seq<char>, k: int) -> Option<int>
    decreases 5 - k,
{
    if k >= 5 || k < 0 {
        None
    } else if spec_ends_with(s, suffix_at(k)) {
        Some(k)
    } else {
        suffix_from(s, k + 1)
    }
}

/// The position of the first `c` in `s` at or after `i`.
pub open spec fn find_from(s: Seq<char>, c: char, i: int) -> Option<int>
    decreases s.len() - i,
{
    if i < 0 || i >= s.len() {
        None
    } else if s[i] == c {
        Some(i)
    } else {
        find_from(s, c, i + 1)
    }
}

/// The name of a task: `pid-version`.
pub open spec fn task_name(pid: u32, version: u32) -> Seq<char> {
    dec_chars(pid as nat) + seq!['-'] + dec_chars(version as nat)
}

/// The task whose `pid-version` name is `stem`.
pub open spec fn spec_task_of_stem(stem: Seq<char>) -> Result<(u32, u32), FileNameError> {
    match find_from(stem, '-', 0) {
        None => Err(FileNameError::NoSeparator),
        Some(p) => match (spec_parse_u32(stem.take(p)), spec_parse_u32(stem.skip(p + 1))) {
            (Some(pid), Some(version)) => Ok((pid, version)),
            _ => Err(FileNameError::InvalidNumber),
        },
    }
}

/// The task of an output file name: the name with its suffix cut off must be
/// `pid-version`.
pub open spec fn spec_task_of_file(fname: Seq<char>) -> Result<(u32, u32), FileNameError> {
    match suffix_from(fname, 0) {
        None => Err(FileNameError::UnknownSuffix),
        Some(k) => spec_task_of_stem(fname.take(fname.len() - suffix_at(k).len())),
    }
}

/// The `k`-th known suffix of output files.
pub fn suffix(k: usize) -> (r: &'static str)
    requires
        k < 5,
    ensures
        r@ == suffix_at(k as int),
{
    if k == 0 {
        ".events.json"
    } else if k == 1 {
        ".events.pb"
    } else if k == 2 {
        ".infos.json"
    } else if k == 3 {
        ".models.json"
    } else {
        ".jobs.json"
    }
}

fn ends_with(s: &[char], suf: &[char]) -> (r: bool)
    ensures
        r == spec_ends_with(s@, suf@),
{
    if suf.len() > s.len() {
        return false;
    }
    let off = s.len() - suf.len();
    let mut i: usize = 0;
    while i < suf.len()
        invariant
            off + suf.len() == s.len(),
            i <= suf@.len(),
            forall|k: int| 0 <= k < i ==> #[trigger] s@[off + k] == suf@[k],
        decreases suf.len() - i,
    {
        if s[off + i] != suf[i] {
            proof {
                assert(s@.subrange(off as int, s@.len() as int)[i as int] == s@[off + i]);
            }
            return false;
        }
        i += 1;
    }
    proof {
        let t = s@.subrange(off as int, s@.len() as int);
        assert forall|k: int| 0 <= k < suf@.len() implies t[k] == suf@[k] by {
            assert(t[k] == s@[off + k]);
        }
        assert(t =~= suf@);
    }
    true
}

fn copy_range(s: &[char], from: usize, to: usize) -> (r: Vec<char>)
    requires
        from <= to <= s@.len(),
    ensures
        r@ == s@.subrange(from as int, to as int),
{
    let mut r: Vec<char> = Vec::new();
    let mut i = from;
    while i < to
        invariant
            from <= i <= to <= s@.len(),
            r@ == s@.subrange(from as int, i as int),
        decreases to - i,
    {
        r.push(s[i]);
        proof {
            assert(s@.subrange(from as int, i + 1) == s@.subrange(from as int, i as int).push(
                s@[i as int],
            ));
        }
        i += 1;
    }
    r
}

/// Index of the first known suffix that ends `name`.
pub fn find_suffix(name: &[char]) -> (r: Option<usize>)
    ensures
        r matches Some(k) ==> k < 5 && suffix_from(name@, 0) == Some(k as int),
        r is None ==> suffix_from(name@, 0) is None,
{
    let mut k: usize = 0;
    while k < 5
        invariant
            k <= 5,
            suffix_from(name@, 0) == suffix_from(name@, k as int),
        decreases 5 - k,
    {
        let suf = chars_of(suffix(k));
        if ends_with(name, suf.as_slice()) {
            return Some(k);
        }
        k += 1;
    }
    None
}

/// The suffix found is a known one, and ends the name.
pub proof fn lemma_suffix_from(s: Seq<char>, j: int)
    ensures
        suffix_from(s, j) matches Some(k) ==> j <= k < 5 && spec_ends_with(s, suffix_at(k)),
    decreases 5 - j,
{
    if 0 <= j < 5 && !spec_ends_with(s, suffix_at(j)) {
        lemma_suffix_from(s, j + 1);
    }
}

fn find_dash(s: &[char]) -> (r: Option<usize>)
    ensures
        r matches Some(p) ==> p < s.len() && find_from(s@, '-', 0) == Some(p as int),
        r is None ==> find_from(s@, '-', 0) is None,
{
    let mut i: usize = 0;
    while i < s.len()
        invariant
            i <= s@.len(),
            find_from(s@, '-', 0) == find_from(s@, '-', i as int),
        decreases s.len() - i,
    {
        if s[i] == '-' {
            return Some(i);
        }
        i += 1;
    }
    None
}

impl crate::utils::DispatchKey for TaskId {
    fn same_key(&self, other: &Self) -> (r: bool) {
        *self == *other
    }
}

/// The task of thread `pid` at mapping `version`.
pub closed spec fn spec_task(pid: u32, version: u32) -> TaskId {
    TaskId { pid, version }
}

/// A task is made of its thread id and its version.
pub broadcast proof fn lemma_spec_task(pid: u32, version: u32)
    ensures
        #[trigger] spec_task(pid, version).spec_pid() == pid,
        spec_task(pid, version).spec_version() == version,
{
}

/// A task is the one built from its own thread id and version.
pub broadcast proof fn lemma_task_eta(t: TaskId)
    ensures
        #[trigger] spec_task(t.spec_pid(), t.spec_version()) == t,
{
}

/// The task that parsing a file name gives, or the reason it fails.
pub open spec fn spec_task_of_file_name(fname: Seq<char>) -> Result<TaskId, FileNameError> {
    match spec_task_of_file(fname) {
        Ok((pid, version)) => Ok(spec_task(pid, version)),
        Err(e) => Err(e),
    }
}

impl TaskId {
    pub closed spec fn spec_pid(&self) -> u32 {
        self.pid
    }

    pub closed spec fn spec_version(&self) -> u32 {
        self.version
    }

    /// The task of thread `pid` at mapping `version`.
    pub fn new(pid: u32, version: u32) -> (r: Self)
        ensures
            r == spec_task(pid, version),
    {
        Self { pid, version }
    }

    /// The task of an output file name, such as `123-2.jobs.json`.
    pub fn try_from_filename(fname: &str) -> (r: Result<TaskId, FileNameError>)
        ensures
            r == spec_task_of_file_name(fname@),
    {
        let name = chars_of(fname);
        match find_suffix(name.as_slice()) {
            None => Err(FileNameError::UnknownSuffix),
            Some(k) => {
                proof {
                    lemma_suffix_from(name@, 0);
                }
                let suf_len = suffix(k).unicode_len();
                let stem = copy_range(name.as_slice(), 0, name.len() - suf_len);
                proof {
                    assert(stem@ == name@.take(name@.len() - suffix_at(k as int).len()));
                }
                Self::from_stem(stem.as_slice())
            },
        }
    }

    /// The task named `pid-version` by `stem`.
    fn from_stem(stem: &[char]) -> (r: Result<TaskId, FileNameError>)
        ensures
            r == match spec_task_of_stem(stem@) {
                Ok((pid, version)) => Ok(spec_task(pid, version)),
                Err(e) => Err(e),
            },
    {
        match find_dash(stem) {
            None => Err(FileNameError::NoSeparator),
            Some(p) => {
                let left = copy_range(stem, 0, p);
                let right = copy_range(stem, p + 1, stem.len());
                proof {
                    assert(left@ == stem@.take(p as int));
                    assert(right@ == stem@.skip(p + 1));
                }
                match (parse_u32(left.as_slice()), parse_u32(right.as_slice())) {
                    (Some(pid), Some(version)) => Ok(TaskId::new(pid, version)),
                    _ => Err(FileNameError::InvalidNumber),
                }
            },
        }
    }

    /// The name of the task, `pid-version`.
    pub fn name(&self) -> (r: String)
        ensures
            r@ == task_name(self.spec_pid(), self.spec_version()),
    {
        let mut out: Vec<char> = Vec::new();
        self.push_name(&mut out);
        proof {
            assert(out@ == Seq::<char>::empty() + task_name(self.pid, self.version));
        }
        string_of(&out)
    }

    /// Appends the name of the task.
    pub fn push_name(&self, out: &mut Vec<char>)
        ensures
            final(out)@ == old(out)@ + task_name(self.spec_pid(), self.spec_version()),
    {
        let ghost o = out@;
        push_dec(out, self.pid as u64);
        out.push('-');
        push_dec(out, self.version as u64);
        proof {
            assert(out@ == o + task_name(self.pid, self.version));
        }
    }
}

proof fn lemma_find_after(s: Seq<char>, d: Seq<char>, i: int)
    requires
        crate::text::all_dec_digits(d),
        d.len() < s.len(),
        s.subrange(0, d.len() as int) == d,
        s[d.len() as int] == '-',
        0 <= i <= d.len(),
    ensures
        find_from(s, '-', i) == Some(d.len() as int),
    decreases d.len() - i,
{
    if i < d.len() {
        assert(s[i] == d[i]);
        assert(is_dec_digit(d[i]));
        lemma_find_after(s, d, i + 1);
    }
}

/// The stem of a task name is parsed back into the task.
pub proof fn lemma_task_name_round_trip(pid: u32, version: u32)
    ensures
        spec_task_of_stem(task_name(pid, version)) == Ok::<(u32, u32), FileNameError>(
            (pid, version),
        ),
{
    let s = task_name(pid, version);
    let d = dec_chars(pid as nat);
    lemma_numeral_digits(pid as nat);
    assert(s.subrange(0, d.len() as int) == d);
    lemma_find_after(s, d, 0);
    let p = d.len() as int;
    assert(s.take(p) == d);
    assert(s.skip(p + 1) == dec_chars(version as nat));
    lemma_parse_numeral(pid);
    lemma_parse_numeral(version);
}

} // verus!
