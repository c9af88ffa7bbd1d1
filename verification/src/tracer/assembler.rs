//! Reassembly of the records that the kernel side splits in chunks: the
//! affinity mask of a thread, and its process information.

use crate::utils::ThreadId;
use std::collections::HashMap;
use vstd::prelude::*;

verus! {

broadcast use vstd::std_specs::hash::group_hash_axioms;

/// Words of an affinity mask.
pub const AFFINITY_MASK_WORDS: usize = 16;

/// Words of an affinity chunk.
pub const AFFINITY_CHUNK_WORDS: usize = 4;

/// Chunks of a whole affinity mask.
pub const AFFINITY_MAX_CHUNKS: u32 = 4;

/// Whether bit `b` of `w` is set.
pub open spec fn bit_set(w: u64, b: u64) -> bool {
    (w >> b) & 1 == 1
}

/// The CPUs among the first `n` bits of `mask`, each word holding 64 of
/// them from its lowest bit up, in increasing order.
pub open spec fn cpus_upto(mask: Seq<u64>, n: int) -> Seq<u32>
    decreases n,
{
    if n <= 0 {
        Seq::empty()
    } else {
        let p = n - 1;
        if bit_set(mask[p / 64], (p % 64) as u64) {
            cpus_upto(mask, p).push(p as u32)
        } else {
            cpus_upto(mask, p)
        }
    }
}

/// The CPUs set in `mask`.
pub open spec fn cpuset(mask: Seq<u64>) -> Seq<u32> {
    cpus_upto(mask, (mask.len() * 64) as int)
}

proof fn lemma_bit_test(w: u64, b: u64)
    requires
        b < 64,
    ensures
        ((w & (1u64 << b)) != 0) == bit_set(w, b),
        w == 0 ==> !bit_set(w, b),
{
    assert(((w & (1u64 << b)) != 0) == ((w >> b) & 1 == 1)) by (bit_vector)
        requires
            b < 64,
    ;
    assert(w == 0 ==> (w >> b) & 1 != 1) by (bit_vector);
}

proof fn lemma_position(w: int, b: int)
    requires
        0 <= w,
        0 <= b < 64,
    ensures
        (w * 64 + b) / 64 == w,
        (w * 64 + b) % 64 == b,
{
    assert((w * 64 + b) / 64 == w && (w * 64 + b) % 64 == b) by (nonlinear_arith)
        requires
            0 <= w,
            0 <= b < 64,
    ;
}

proof fn lemma_zero_word(mask: Seq<u64>, w: int, b: int)
    requires
        0 <= w < mask.len(),
        0 <= b <= 64,
        mask[w] == 0,
    ensures
        cpus_upto(mask, w * 64 + b) == cpus_upto(mask, w * 64),
    decreases b,
{
    if b > 0 {
        lemma_zero_word(mask, w, b - 1);
        lemma_position(w, b - 1);
        lemma_bit_test(0, (b - 1) as u64);
    }
}

/// The CPUs set in an affinity mask, in increasing order; none when no
/// bit is set.
pub fn mask_to_cpuset(mask: &Vec<u64>) -> (r: Option<Vec<u32>>)
    requires
        mask@.len() <= AFFINITY_MASK_WORDS,
    ensures
        cpuset(mask@).len() == 0 ==> r is None,
        cpuset(mask@).len() > 0 ==> (r matches Some(v) && v@ == cpuset(mask@)),
{
    let mut cpu_ids: Vec<u32> = Vec::new();
    let mut word_idx: usize = 0;
    while word_idx < mask.len()
        invariant
            0 <= word_idx <= mask@.len() <= AFFINITY_MASK_WORDS,
            cpu_ids@ == cpus_upto(mask@, word_idx * 64),
        decreases mask@.len() - word_idx,
    {
        let word = mask[word_idx];
        if word == 0 {
            proof {
                lemma_zero_word(mask@, word_idx as int, 64);
            }
        } else {
            let mut bit_idx: u64 = 0;
            while bit_idx < 64
                invariant
                    0 <= word_idx < mask@.len() <= AFFINITY_MASK_WORDS,
                    word == mask@[word_idx as int],
                    0 <= bit_idx <= 64,
                    cpu_ids@ == cpus_upto(mask@, word_idx * 64 + bit_idx),
                decreases 64 - bit_idx,
            {
                proof {
                    lemma_position(word_idx as int, bit_idx as int);
                    lemma_bit_test(word, bit_idx);
                }
                if (word & (1u64 << bit_idx)) != 0 {
                    cpu_ids.push((word_idx * 64) as u32 + bit_idx as u32);
                }
                bit_idx += 1;
            }
        }
        word_idx += 1;
    }
    if cpu_ids.len() == 0 {
        None
    } else {
        Some(cpu_ids)
    }
}

/// The thread of a packed `pid_tgid` word.
pub open spec fn thread_of(pid_tgid: u64) -> ThreadId {
    ThreadId { pid: (pid_tgid % 0x1_0000_0000) as u32, tgid: (pid_tgid / 0x1_0000_0000) as u32 }
}

/// A record of the kernel side, as far as reassembly reads it.
#[derive(Debug, PartialEq)]
pub enum RawRecord {
    /// Opens the process information of a thread.
    ProcessInfoStart { ppid: u32, comm: Vec<u8> },
    /// A chunk of the command line: its first `chunk_len` bytes count.
    ProcessInfoCmdChunk { chunk_len: u32, chunk: Vec<u8> },
    /// Closes the process information.
    ProcessInfoEnd,
    /// Opens an affinity mask of `chunk_count` chunks.
    AffinityUpdateStart { chunk_count: u32 },
    /// A chunk of the mask: its first `chunk_len` bytes count.
    AffinityUpdateChunk { chunk_len: u32, mask: Vec<u64> },
    /// The last chunk of the mask.
    AffinityUpdateChunkEnd { chunk_len: u32, mask: Vec<u64> },
    /// Any other record.
    Other,
}

/// A record with the thread it comes from and its timestamp.
#[derive(Debug, PartialEq)]
pub struct RawEvent {
    pub ts: u64,
    pub pid_tgid: u64,
    pub record: RawRecord,
}

/// An affinity mask being reassembled.
#[derive(Debug, PartialEq)]
pub struct AffinityState {
    pub ts: u64,
    pub id: ThreadId,
    pub expected_chunks: u32,
    pub received_chunks: u32,
    pub next_index: usize,
    pub mask: Vec<u64>,
}

/// `mask` with the `words` words at `off` taken from `chunk`.
pub open spec fn spec_patched(mask: Seq<u64>, off: int, chunk: Seq<u64>, words: int) -> Seq<u64> {
    Seq::new(mask.len(), |k: int| if off <= k < off + words { chunk[k - off] } else { mask[k] })
}

/// What taking a chunk of `chunk_len` bytes needs: its words are in
/// `chunk` and land inside the mask.
pub open spec fn spec_can_append(s: AffinityState, chunk_len: u32, chunk: Seq<u64>) -> bool {
    let words = chunk_len / 8;
    &&& words <= chunk.len()
    &&& words > 0 ==> s.next_index * AFFINITY_CHUNK_WORDS + words <= AFFINITY_MASK_WORDS
    &&& s.next_index < usize::MAX
}

impl AffinityState {
    /// The mask has its full length.
    pub open spec fn wf(&self) -> bool {
        self.mask@.len() == AFFINITY_MASK_WORDS
    }

    /// An empty mask of thread `pid_tgid` at `ts`, expecting `expected_chunks`.
    pub fn new(ts: u64, pid_tgid: u64, expected_chunks: u32) -> (r: Self)
        ensures
            r.wf(),
            r.ts == ts,
            r.id == thread_of(pid_tgid),
            r.expected_chunks == expected_chunks,
            r.received_chunks == 0,
            r.next_index == 0,
            forall|k: int| 0 <= k < AFFINITY_MASK_WORDS ==> r.mask@[k] == 0,
    {
        let mut mask: Vec<u64> = Vec::new();
        let mut i: usize = 0;
        while i < AFFINITY_MASK_WORDS
            invariant
                0 <= i <= AFFINITY_MASK_WORDS,
                mask@.len() == i,
                forall|k: int| 0 <= k < i ==> mask@[k] == 0,
            decreases AFFINITY_MASK_WORDS - i,
        {
            mask.push(0);
            i += 1;
        }
        Self {
            ts,
            id: ThreadId::from_pid_tgid(pid_tgid),
            expected_chunks,
            received_chunks: 0,
            next_index: 0,
            mask,
        }
    }

    /// Takes the next chunk: its words go at the next chunk position.
    pub fn append_chunk(&mut self, chunk_len: u32, chunk: &Vec<u64>)
        requires
            old(self).wf(),
            spec_can_append(*old(self), chunk_len, chunk@),
        ensures
            final(self).wf(),
            final(self).mask@ == spec_patched(
                old(self).mask@,
                old(self).next_index * AFFINITY_CHUNK_WORDS,
                chunk@,
                (chunk_len / 8) as int,
            ),
            final(self).next_index == old(self).next_index + 1,
            final(self).received_chunks == (if old(self).received_chunks < u32::MAX {
                old(self).received_chunks + 1
            } else {
                u32::MAX as int
            }),
            final(self).ts == old(self).ts,
            final(self).id == old(self).id,
            final(self).expected_chunks == old(self).expected_chunks,
    {
        let words = (chunk_len / 8) as usize;
        let ghost m0 = self.mask@;
        let ghost off = self.next_index * AFFINITY_CHUNK_WORDS;
        if words > 0 {
            let offset = self.next_index * AFFINITY_CHUNK_WORDS;
            let mut i: usize = 0;
            while i < words
                invariant
                    0 <= i <= words,
                    words <= chunk@.len(),
                    offset == off,
                    offset + words <= AFFINITY_MASK_WORDS,
                    self.mask@ == spec_patched(m0, off, chunk@, i as int),
                    m0.len() == AFFINITY_MASK_WORDS,
                    self.next_index == old(self).next_index,
                    self.received_chunks == old(self).received_chunks,
                    self.ts == old(self).ts,
                    self.id == old(self).id,
                    self.expected_chunks == old(self).expected_chunks,
                decreases words - i,
            {
                self.mask.set(offset + i, chunk[i]);
                i += 1;
                proof {
                    assert(self.mask@ =~= spec_patched(m0, off, chunk@, i as int));
                }
            }
        } else {
            proof {
                assert(self.mask@ =~= spec_patched(m0, off, chunk@, 0));
            }
        }
        self.next_index += 1;
        self.received_chunks = self.received_chunks.saturating_add(1);
    }

    /// All expected chunks came (or none was expected).
    pub fn is_complete(&self) -> (r: bool)
        ensures
            r == (self.expected_chunks == 0 || self.received_chunks >= self.expected_chunks),
    {
        self.expected_chunks == 0 || self.received_chunks >= self.expected_chunks
    }
}

/// What the affinity assembler does with a record.
#[derive(Debug, PartialEq)]
pub enum AffinityAssemblerAction {
    NotHandled,
    Consumed,
    /// A mask is whole: the CPUs it sets, none if no bit is.
    Completed { ts: u64, id: ThreadId, cpumask: Option<Vec<u32>> },
}

/// What a record asks of the states of the affinity assembler: a chunk
/// for a mask in progress fits it.
pub open spec fn spec_affinity_can_handle(states: Map<u64, AffinityState>, event: RawEvent) -> bool {
    match event.record {
        RawRecord::AffinityUpdateChunk { chunk_len, mask } | RawRecord::AffinityUpdateChunkEnd {
            chunk_len,
            mask,
        } => states.contains_key(event.pid_tgid) ==> spec_can_append(states[event.pid_tgid], chunk_len, mask@),
        _ => true,
    }
}

/// Reassembles the affinity masks of threads, one in progress per thread.
pub struct AffinityUpdateAssembler {
    states: HashMap<u64, AffinityState>,
}

impl AffinityUpdateAssembler {
    /// The masks in progress, by thread.
    pub closed spec fn states(&self) -> Map<u64, AffinityState> {
        self.states@
    }

    /// Every mask in progress has its full length.
    pub open spec fn wf(&self) -> bool {
        forall|k: u64| #[trigger] self.states().contains_key(k) ==> self.states()[k].wf()
    }

    pub fn new() -> (r: Self)
        ensures
            r.wf(),
            r.states() == Map::<u64, AffinityState>::empty(),
    {
        Self { states: HashMap::new() }
    }

    /// Whether `handle` can take `event`: see `spec_affinity_can_handle`.
    pub fn can_handle(&self, event: &RawEvent) -> (r: bool)
        ensures
            r == spec_affinity_can_handle(self.states(), *event),
    {
        match &event.record {
            RawRecord::AffinityUpdateChunk { chunk_len, mask } | RawRecord::AffinityUpdateChunkEnd {
                chunk_len,
                mask,
            } => match self.states.get(&event.pid_tgid) {
                Some(s) => {
                    let words = (*chunk_len / 8) as usize;
                    words <= mask.len() && s.next_index < usize::MAX && (words == 0 || (words
                        <= AFFINITY_MASK_WORDS && s.next_index <= (AFFINITY_MASK_WORDS - words)
                        / AFFINITY_CHUNK_WORDS))
                },
                None => true,
            },
            _ => true,
        }
    }

    /// Takes a record: a start opens a mask (expecting at most a whole
    /// mask of chunks), a chunk fills the mask in progress, and the last
    /// chunk closes it, completed when all expected chunks came.
    pub fn handle(&mut self, event: &RawEvent) -> (r: AffinityAssemblerAction)
        requires
            old(self).wf(),
            spec_affinity_can_handle(old(self).states(), *event),
        ensures
            final(self).wf(),
            match event.record {
                RawRecord::AffinityUpdateStart { chunk_count } => {
                    &&& r == AffinityAssemblerAction::Consumed
                    &&& final(self).states().dom() == old(self).states().dom().insert(event.pid_tgid)
                    &&& forall|k: u64| #[trigger] final(self).states().contains_key(k) && k != event.pid_tgid
                        ==> final(self).states()[k] == old(self).states()[k]
                    &&& ({
                        let s = final(self).states()[event.pid_tgid];
                        &&& s.ts == event.ts
                        &&& s.id == thread_of(event.pid_tgid)
                        &&& s.expected_chunks == (if chunk_count < AFFINITY_MAX_CHUNKS {
                            chunk_count
                        } else {
                            AFFINITY_MAX_CHUNKS
                        })
                        &&& s.received_chunks == 0
                        &&& s.next_index == 0
                        &&& forall|k: int| 0 <= k < AFFINITY_MASK_WORDS ==> s.mask@[k] == 0
                    })
                },
                RawRecord::AffinityUpdateChunk { chunk_len, mask } => {
                    &&& r == AffinityAssemblerAction::Consumed
                    &&& final(self).states().dom() == old(self).states().dom()
                    &&& forall|k: u64| #[trigger] final(self).states().contains_key(k) && k != event.pid_tgid
                        ==> final(self).states()[k] == old(self).states()[k]
                    &&& old(self).states().contains_key(event.pid_tgid) ==> spec_appended(
                        old(self).states()[event.pid_tgid],
                        final(self).states()[event.pid_tgid],
                        chunk_len,
                        mask@,
                    )
                },
                RawRecord::AffinityUpdateChunkEnd { chunk_len, mask } => {
                    &&& final(self).states() == old(self).states().remove(event.pid_tgid)
                    &&& if old(self).states().contains_key(event.pid_tgid) {
                        let s = old(self).states()[event.pid_tgid];
                        let received = if s.received_chunks < u32::MAX {
                            s.received_chunks + 1
                        } else {
                            u32::MAX as int
                        };
                        let m = spec_patched(s.mask@, s.next_index * AFFINITY_CHUNK_WORDS, mask@, (chunk_len / 8) as int);
                        if s.expected_chunks == 0 || received >= s.expected_chunks {
                            r matches AffinityAssemblerAction::Completed { ts, id, cpumask } && ts == s.ts
                                && id == s.id && (cpuset(m).len() == 0 ==> cpumask is None) && (cpuset(m).len()
                                > 0 ==> (cpumask matches Some(v) && v@ == cpuset(m)))
                        } else {
                            r == AffinityAssemblerAction::Consumed
                        }
                    } else {
                        r == AffinityAssemblerAction::Consumed
                    }
                },
                _ => {
                    &&& r == AffinityAssemblerAction::NotHandled
                    &&& final(self).states() == old(self).states()
                },
            },
    {
        match &event.record {
            RawRecord::AffinityUpdateStart { chunk_count } => {
                let expected = if *chunk_count < AFFINITY_MAX_CHUNKS {
                    *chunk_count
                } else {
                    AFFINITY_MAX_CHUNKS
                };
                let state = AffinityState::new(event.ts, event.pid_tgid, expected);
                self.states.insert(event.pid_tgid, state);
                AffinityAssemblerAction::Consumed
            },
            RawRecord::AffinityUpdateChunk { chunk_len, mask } => {
                if let Some(mut state) = self.states.remove(&event.pid_tgid) {
                    state.append_chunk(*chunk_len, mask);
                    self.states.insert(event.pid_tgid, state);
                }
                AffinityAssemblerAction::Consumed
            },
            RawRecord::AffinityUpdateChunkEnd { chunk_len, mask } => {
                if let Some(mut state) = self.states.remove(&event.pid_tgid) {
                    state.append_chunk(*chunk_len, mask);
                    if state.is_complete() {
                        let cpumask = mask_to_cpuset(&state.mask);
                        return AffinityAssemblerAction::Completed { ts: state.ts, id: state.id, cpumask };
                    }
                }
                AffinityAssemblerAction::Consumed
            },
            _ => AffinityAssemblerAction::NotHandled,
        }
    }
}

/// `b` is `a` after taking a chunk of `chunk_len` bytes from `chunk`.
pub open spec fn spec_appended(a: AffinityState, b: AffinityState, chunk_len: u32, chunk: Seq<u64>) -> bool {
    &&& b.wf()
    &&& b.mask@ == spec_patched(a.mask@, a.next_index * AFFINITY_CHUNK_WORDS, chunk, (chunk_len / 8) as int)
    &&& b.next_index == a.next_index + 1
    &&& b.received_chunks == (if a.received_chunks < u32::MAX {
        a.received_chunks + 1
    } else {
        u32::MAX as int
    })
    &&& b.ts == a.ts
    &&& b.id == a.id
    &&& b.expected_chunks == a.expected_chunks
}

/// The position of the first 0 of `s`, or its length when it has none.
pub open spec fn first_zero(s: Seq<u8>) -> int
    decreases s.len(),
{
    if s.len() == 0 || s[0] == 0 {
        0
    } else {
        1 + first_zero(s.drop_first())
    }
}

proof fn lemma_first_zero(s: Seq<u8>, i: int)
    requires
        0 <= i <= s.len(),
        forall|j: int| 0 <= j < i ==> s[j] != 0,
        i == s.len() || s[i] == 0,
    ensures
        first_zero(s) == i,
    decreases i,
{
    if i > 0 {
        lemma_first_zero(s.drop_first(), i - 1);
    }
}

/// The text that `String::from_utf8_lossy` makes of `bytes`.
pub uninterp spec fn lossy_text(bytes: Seq<u8>) -> Seq<char>;

/// `String::from_utf8_lossy`, made owned: the text of `bytes`, where each
/// invalid UTF-8 sequence becomes U+FFFD. The result is named; of ASCII
/// bytes, which are valid UTF-8, it is each byte as the character of its
/// code.
#[verifier::external_body]
fn text_of_bytes(bytes: &Vec<u8>) -> (r: String)
    ensures
        r@ == lossy_text(bytes@),
        (forall|i: int| 0 <= i < bytes@.len() ==> bytes@[i] < 128) ==> r@ == bytes@.map_values(
            |b: u8| b as char,
        ),
{
    String::from_utf8_lossy(bytes.as_slice()).into_owned()
}

/// The text of a zero-terminated byte array: its bytes before the first
/// 0 (all of them if it has none), none if that is empty.
pub fn c_string_from_array(buf: &Vec<u8>) -> (r: Option<String>)
    ensures
        first_zero(buf@) == 0 ==> r is None,
        first_zero(buf@) > 0 ==> (r matches Some(t) && t@ == lossy_text(buf@.take(first_zero(buf@)))),
{
    let mut bytes: Vec<u8> = Vec::new();
    let mut i: usize = 0;
    while i < buf.len()
        invariant_except_break
            forall|j: int| 0 <= j < i ==> buf@[j] != 0,
        invariant
            0 <= i <= buf@.len(),
            bytes@ == buf@.take(i as int),
        ensures
            0 <= i <= buf@.len(),
            bytes@ == buf@.take(i as int),
            forall|j: int| 0 <= j < i ==> buf@[j] != 0,
            i == buf@.len() || buf@[i as int] == 0,
        decreases buf@.len() - i,
    {
        if buf[i] == 0 {
            break;
        }
        bytes.push(buf[i]);
        i += 1;
        proof {
            assert(bytes@ =~= buf@.take(i as int));
        }
    }
    proof {
        lemma_first_zero(buf@, i as int);
    }
    if bytes.len() == 0 {
        None
    } else {
        Some(text_of_bytes(&bytes))
    }
}

/// What is known of a process.
#[derive(Debug, PartialEq)]
pub struct ProcessInfo {
    pub ppid: Option<u32>,
    pub comm: Option<String>,
    pub cmd: Option<String>,
}

/// The process information of a thread being reassembled.
#[derive(Debug, PartialEq)]
pub struct ProcessInfoState {
    pub ts: u64,
    pub id: ThreadId,
    pub ppid: u32,
    pub comm: Option<String>,
    pub cmd: Vec<u8>,
    pub cmd_complete: bool,
}

/// The bytes that a command chunk adds, and whether they end the command:
/// up to `chunk_len` bytes of `chunk`, before its first 0.
pub open spec fn spec_chunk_bytes(chunk_len: u32, chunk: Seq<u8>) -> (Seq<u8>, bool) {
    let t = if chunk_len < chunk.len() {
        chunk.take(chunk_len as int)
    } else {
        chunk
    };
    (t.take(first_zero(t)), first_zero(t) < t.len())
}

impl ProcessInfoState {
    /// The state opened at `ts` for thread `pid_tgid`, with the parent and
    /// the zero-terminated name of the process.
    pub fn new(ts: u64, pid_tgid: u64, ppid: u32, comm: &Vec<u8>) -> (r: Self)
        ensures
            r.ts == ts,
            r.id == thread_of(pid_tgid),
            r.ppid == ppid,
            first_zero(comm@) == 0 ==> r.comm is None,
            first_zero(comm@) > 0 ==> (r.comm matches Some(t) && t@ == lossy_text(comm@.take(first_zero(comm@)))),
            r.cmd@ == Seq::<u8>::empty(),
            !r.cmd_complete,
    {
        ProcessInfoState {
            ts,
            id: ThreadId::from_pid_tgid(pid_tgid),
            ppid,
            comm: c_string_from_array(comm),
            cmd: Vec::new(),
            cmd_complete: false,
        }
    }

    /// Takes a chunk of the command: its bytes up to a 0, which ends the
    /// command; nothing once the command ended.
    pub fn append_chunk(&mut self, chunk_len: u32, chunk: &Vec<u8>)
        ensures
            final(self).ts == old(self).ts,
            final(self).id == old(self).id,
            final(self).ppid == old(self).ppid,
            final(self).comm == old(self).comm,
            old(self).cmd_complete ==> *final(self) == *old(self),
            !old(self).cmd_complete ==> ({
                let (bytes, ends) = spec_chunk_bytes(chunk_len, chunk@);
                &&& final(self).cmd@ == old(self).cmd@ + bytes
                &&& final(self).cmd_complete == ends
            }),
    {
        if self.cmd_complete {
            return;
        }
        let len = if (chunk_len as usize) < chunk.len() {
            chunk_len as usize
        } else {
            chunk.len()
        };
        let ghost t = spec_chunk_bytes(chunk_len, chunk@);
        let ghost c0 = self.cmd@;
        let ghost taken = chunk@.take(len as int);
        proof {
            if chunk_len < chunk@.len() {
                assert(taken == chunk@.take(chunk_len as int));
            } else {
                assert(taken =~= chunk@);
            }
        }
        let mut i: usize = 0;
        while i < len
            invariant_except_break
                forall|j: int| 0 <= j < i ==> taken[j] != 0,
                !self.cmd_complete,
            invariant
                0 <= i <= len,
                len <= chunk@.len(),
                taken == chunk@.take(len as int),
                self.cmd@ == c0 + taken.take(i as int),
                self.ts == old(self).ts,
                self.id == old(self).id,
                self.ppid == old(self).ppid,
                self.comm == old(self).comm,
            ensures
                0 <= i <= len,
                self.cmd@ == c0 + taken.take(i as int),
                forall|j: int| 0 <= j < i ==> taken[j] != 0,
                i == len || taken[i as int] == 0,
                self.cmd_complete == (i < len),
            decreases len - i,
        {
            let byte = chunk[i];
            if byte == 0 {
                self.cmd_complete = true;
                break;
            }
            self.cmd.push(byte);
            i += 1;
            proof {
                assert(self.cmd@ =~= c0 + taken.take(i as int));
            }
        }
        proof {
            lemma_first_zero(taken, i as int);
        }
    }

    /// The process information the state holds: none when it knows no
    /// parent (a parent of 0), no name and no command.
    pub fn finish(self) -> (r: Option<(ThreadId, u64, ProcessInfo)>)
        ensures
            (self.ppid == 0 && self.comm is None && self.cmd@.len() == 0) ==> r is None,
            !(self.ppid == 0 && self.comm is None && self.cmd@.len() == 0) ==> (r matches Some((id, ts, info))
                && id == self.id && ts == self.ts && info.ppid == (if self.ppid != 0 {
                Some(self.ppid)
            } else {
                None
            }) && info.comm == self.comm && (self.cmd@.len() == 0 ==> info.cmd is None) && (self.cmd@.len()
                > 0 ==> (info.cmd matches Some(c) && c@ == lossy_text(self.cmd@)))),
    {
        let has_ppid = self.ppid != 0;
        let cmd = if self.cmd.len() == 0 {
            None
        } else {
            Some(text_of_bytes(&self.cmd))
        };
        if !has_ppid && self.comm.is_none() && cmd.is_none() {
            return None;
        }
        let info = ProcessInfo { ppid: if has_ppid { Some(self.ppid) } else { None }, comm: self.comm, cmd };
        Some((self.id, self.ts, info))
    }
}

/// What the process information assembler does with a record.
#[derive(Debug, PartialEq)]
pub enum ProcessInfoAssemblerAction {
    NotHandled,
    Consumed,
    /// The information of a process is whole.
    Completed { ts: u64, id: ThreadId, info: ProcessInfo },
}

/// Reassembles the process information of threads, one in progress per
/// thread.
pub struct ProcessInfoAssembler {
    states: HashMap<u64, ProcessInfoState>,
}

impl ProcessInfoAssembler {
    /// The information in progress, by thread.
    pub closed spec fn states(&self) -> Map<u64, ProcessInfoState> {
        self.states@
    }

    pub fn new() -> (r: Self)
        ensures
            r.states() == Map::<u64, ProcessInfoState>::empty(),
    {
        Self { states: HashMap::new() }
    }

    /// Takes a record: a start opens the information of its thread (over
    /// any in progress), a command chunk adds to it, and the end closes it.
    pub fn handle(&mut self, event: &RawEvent) -> (r: ProcessInfoAssemblerAction)
        ensures
            match event.record {
                RawRecord::ProcessInfoStart { ppid, comm } => {
                    let s = final(self).states()[event.pid_tgid];
                    &&& r == ProcessInfoAssemblerAction::Consumed
                    &&& final(self).states().dom() == old(self).states().dom().insert(event.pid_tgid)
                    &&& forall|k: u64| #[trigger] final(self).states().contains_key(k) && k != event.pid_tgid
                        ==> final(self).states()[k] == old(self).states()[k]
                    &&& s.ts == event.ts
                    &&& s.id == thread_of(event.pid_tgid)
                    &&& s.ppid == ppid
                    &&& (first_zero(comm@) == 0 ==> s.comm is None)
                    &&& (first_zero(comm@) > 0 ==> (s.comm matches Some(t) && t@ == lossy_text(
                        comm@.take(first_zero(comm@)),
                    )))
                    &&& s.cmd@ == Seq::<u8>::empty()
                    &&& !s.cmd_complete
                },
                RawRecord::ProcessInfoCmdChunk { chunk_len, chunk } => {
                    &&& r == ProcessInfoAssemblerAction::Consumed
                    &&& final(self).states().dom() == old(self).states().dom()
                    &&& forall|k: u64| #[trigger] final(self).states().contains_key(k) && k != event.pid_tgid
                        ==> final(self).states()[k] == old(self).states()[k]
                    &&& old(self).states().contains_key(event.pid_tgid) ==> spec_cmd_appended(
                        old(self).states()[event.pid_tgid],
                        final(self).states()[event.pid_tgid],
                        chunk_len,
                        chunk@,
                    )
                },
                RawRecord::ProcessInfoEnd => {
                    &&& final(self).states() == old(self).states().remove(event.pid_tgid)
                    &&& if old(self).states().contains_key(event.pid_tgid) {
                        let s = old(self).states()[event.pid_tgid];
                        if s.ppid == 0 && s.comm is None && s.cmd@.len() == 0 {
                            r == ProcessInfoAssemblerAction::Consumed
                        } else {
                            r matches ProcessInfoAssemblerAction::Completed { ts, id, info } && ts == s.ts
                                && id == s.id && info.ppid == (if s.ppid != 0 {
                                Some(s.ppid)
                            } else {
                                None
                            }) && info.comm == s.comm && (s.cmd@.len() == 0 ==> info.cmd is None) && (
                            s.cmd@.len() > 0 ==> (info.cmd matches Some(c) && c@ == lossy_text(s.cmd@)))
                        }
                    } else {
                        r == ProcessInfoAssemblerAction::Consumed
                    }
                },
                _ => {
                    &&& r == ProcessInfoAssemblerAction::NotHandled
                    &&& final(self).states() == old(self).states()
                },
            },
    {
        match &event.record {
            RawRecord::ProcessInfoStart { ppid, comm } => {
                let state = ProcessInfoState::new(event.ts, event.pid_tgid, *ppid, comm);
                self.states.insert(event.pid_tgid, state);
                ProcessInfoAssemblerAction::Consumed
            },
            RawRecord::ProcessInfoCmdChunk { chunk_len, chunk } => {
                if let Some(mut state) = self.states.remove(&event.pid_tgid) {
                    state.append_chunk(*chunk_len, chunk);
                    self.states.insert(event.pid_tgid, state);
                }
                ProcessInfoAssemblerAction::Consumed
            },
            RawRecord::ProcessInfoEnd => {
                if let Some(state) = self.states.remove(&event.pid_tgid) {
                    if let Some((id, ts, info)) = state.finish() {
                        return ProcessInfoAssemblerAction::Completed { ts, id, info };
                    }
                }
                ProcessInfoAssemblerAction::Consumed
            },
            _ => ProcessInfoAssemblerAction::NotHandled,
        }
    }
}

/// `b` is `a` after taking a command chunk of `chunk_len` bytes from `chunk`.
pub open spec fn spec_cmd_appended(a: ProcessInfoState, b: ProcessInfoState, chunk_len: u32, chunk: Seq<u8>) -> bool {
    &&& b.ts == a.ts
    &&& b.id == a.id
    &&& b.ppid == a.ppid
    &&& b.comm == a.comm
    &&& a.cmd_complete ==> b == a
    &&& !a.cmd_complete ==> ({
        let (bytes, ends) = spec_chunk_bytes(chunk_len, chunk);
        &&& b.cmd@ == a.cmd@ + bytes
        &&& b.cmd_complete == ends
    })
}

} // verus!
