//! Firmware updates: versions and their order, the records that prepare
//! servers for an update and carry its bytes, the server's update machine
//! and the client's plan for sending the bytes in windows.

use vstd::prelude::*;

verus! {

/// A key for the encryption and authentication of update messages. It has
/// no `Debug`, so that it is never printed.
#[derive(Clone, Copy, PartialEq, Eq)]
pub struct UpdateKey(pub [u8; 16]);

/// A constrained form of pre-release designators along with a numeric
/// identifier.
#[derive(Copy, Clone, Debug, PartialEq, Eq, Structural, Ord)]
pub enum PreRelease {
    Alpha(u8),
    Beta(u8),
}

/// A compact and limited form of a semantic version: no build identifier,
/// and a pre-release is alpha or beta and always has an identifier.
#[derive(Clone, Copy, Debug, PartialEq, Eq, Structural)]
pub struct Version {
    pub major: u8,
    pub minor: u8,
    pub patch: u8,
    pub pre: Option<PreRelease>,
}

/// A version string could not be parsed.
#[derive(Debug, Clone, Copy, PartialEq, Eq, Structural)]
pub struct ParseVersionErr;

/// How two integers compare.
pub open spec fn cmp_int(a: int, b: int) -> core::cmp::Ordering {
    if a < b {
        core::cmp::Ordering::Less
    } else if a == b {
        core::cmp::Ordering::Equal
    } else {
        core::cmp::Ordering::Greater
    }
}

/// The order of pre-releases: every alpha before every beta, then by
/// identifier.
pub open spec fn pre_release_cmp(a: PreRelease, b: PreRelease) -> core::cmp::Ordering {
    match (a, b) {
        (PreRelease::Alpha(x), PreRelease::Alpha(y)) => cmp_int(x as int, y as int),
        (PreRelease::Alpha(_), PreRelease::Beta(_)) => core::cmp::Ordering::Less,
        (PreRelease::Beta(_), PreRelease::Alpha(_)) => core::cmp::Ordering::Greater,
        (PreRelease::Beta(x), PreRelease::Beta(y)) => cmp_int(x as int, y as int),
    }
}

/// The order of versions: by major, minor and patch; then a release after
/// any of its pre-releases; then by pre-release.
pub open spec fn version_cmp(a: Version, b: Version) -> core::cmp::Ordering {
    if a.major != b.major {
        cmp_int(a.major as int, b.major as int)
    } else if a.minor != b.minor {
        cmp_int(a.minor as int, b.minor as int)
    } else if a.patch != b.patch {
        cmp_int(a.patch as int, b.patch as int)
    } else {
        match (a.pre, b.pre) {
            (None, None) => core::cmp::Ordering::Equal,
            (None, Some(_)) => core::cmp::Ordering::Greater,
            (Some(_), None) => core::cmp::Ordering::Less,
            (Some(x), Some(y)) => pre_release_cmp(x, y),
        }
    }
}

fn cmp_u8(a: u8, b: u8) -> (r: core::cmp::Ordering)
    ensures
        r == cmp_int(a as int, b as int),
{
    if a < b {
        core::cmp::Ordering::Less
    } else if a == b {
        core::cmp::Ordering::Equal
    } else {
        core::cmp::Ordering::Greater
    }
}

impl PreRelease {
    /// Compares two pre-releases: every alpha before every beta, then by
    /// identifier.
    pub fn cmp_pre(&self, other: &Self) -> (r: core::cmp::Ordering)
        ensures
            r == pre_release_cmp(*self, *other),
    {
        match (self, other) {
            (PreRelease::Alpha(x), PreRelease::Alpha(y)) => cmp_u8(*x, *y),
            (PreRelease::Alpha(_), PreRelease::Beta(_)) => core::cmp::Ordering::Less,
            (PreRelease::Beta(_), PreRelease::Alpha(_)) => core::cmp::Ordering::Greater,
            (PreRelease::Beta(x), PreRelease::Beta(y)) => cmp_u8(*x, *y),
        }
    }
}

impl PartialOrd for PreRelease {
    fn partial_cmp(&self, other: &Self) -> (r: Option<core::cmp::Ordering>) {
        Some(self.cmp_pre(other))
    }
}

impl vstd::std_specs::cmp::PartialOrdSpecImpl for PreRelease {
    open spec fn obeys_partial_cmp_spec() -> bool {
        true
    }

    open spec fn partial_cmp_spec(&self, other: &Self) -> Option<core::cmp::Ordering> {
        Some(pre_release_cmp(*self, *other))
    }
}

impl Version {
    /// Compares two versions: by major, minor and patch; then a release
    /// after any of its pre-releases; then by pre-release.
    pub fn cmp_version(&self, other: &Self) -> (r: core::cmp::Ordering)
        ensures
            r == version_cmp(*self, *other),
    {
        if self.major != other.major {
            cmp_u8(self.major, other.major)
        } else if self.minor != other.minor {
            cmp_u8(self.minor, other.minor)
        } else if self.patch != other.patch {
            cmp_u8(self.patch, other.patch)
        } else {
            match (&self.pre, &other.pre) {
                (None, None) => core::cmp::Ordering::Equal,
                (None, Some(_)) => core::cmp::Ordering::Greater,
                (Some(_), None) => core::cmp::Ordering::Less,
                (Some(x), Some(y)) => x.cmp_pre(y),
            }
        }
    }
}

impl PartialOrd for Version {
    fn partial_cmp(&self, other: &Self) -> (r: Option<core::cmp::Ordering>) {
        Some(self.cmp_version(other))
    }
}

impl vstd::std_specs::cmp::PartialOrdSpecImpl for Version {
    open spec fn obeys_partial_cmp_spec() -> bool {
        true
    }

    open spec fn partial_cmp_spec(&self, other: &Self) -> Option<core::cmp::Ordering> {
        Some(version_cmp(*self, *other))
    }
}

/// Whether `pat` occurs in `s` at position `i`.
pub open spec fn occurs_at(s: Seq<u8>, pat: Seq<u8>, i: int) -> bool {
    0 <= i && i + pat.len() <= s.len() && s.subrange(i, i + pat.len()) == pat
}

/// Whether `i` is the first position at which `pat` occurs in `s`.
pub open spec fn first_occurrence(s: Seq<u8>, pat: Seq<u8>, i: int) -> bool {
    occurs_at(s, pat, i) && forall|j: int| 0 <= j < i ==> !occurs_at(s, pat, j)
}

/// `s` split around the first occurrence of `pat`, if there is one.
pub open spec fn split_once(s: Seq<u8>, pat: Seq<u8>) -> Option<(Seq<u8>, Seq<u8>)> {
    if exists|i: int| first_occurrence(s, pat, i) {
        let i = choose|i: int| first_occurrence(s, pat, i);
        Some((s.take(i), s.skip(i + pat.len())))
    } else {
        None
    }
}

/// Whether a byte is an ASCII decimal digit.
pub open spec fn is_digit(c: u8) -> bool {
    48 <= c <= 57
}

/// Whether every byte of `s` is a decimal digit.
pub open spec fn all_digits(s: Seq<u8>) -> bool {
    forall|i: int| 0 <= i < s.len() ==> is_digit(#[trigger] s[i])
}

/// The value of a string of decimal digits.
pub open spec fn digits_value(s: Seq<u8>) -> nat
    decreases s.len(),
{
    if s.len() == 0 {
        0
    } else {
        digits_value(s.drop_last()) * 10 + (s.last() - 48) as nat
    }
}

/// The `u8` that a string denotes: an optional `+` and one or more decimal
/// digits whose value is at most 255.
pub open spec fn parse_u8(s: Seq<u8>) -> Option<u8> {
    let d = if s.len() > 0 && s[0] == 43 {
        s.drop_first()
    } else {
        s
    };
    if d.len() > 0 && all_digits(d) && digits_value(d) <= 255 {
        Some(digits_value(d) as u8)
    } else {
        None
    }
}

/// The bytes of `"."`.
pub open spec fn dot() -> Seq<u8> {
    seq![46u8]
}

/// The bytes of `"-"`.
pub open spec fn dash() -> Seq<u8> {
    seq![45u8]
}

/// The bytes of `"alpha."`.
pub open spec fn alpha_tag() -> Seq<u8> {
    seq![97u8, 108u8, 112u8, 104u8, 97u8, 46u8]
}

/// The bytes of `"beta."`.
pub open spec fn beta_tag() -> Seq<u8> {
    seq![98u8, 101u8, 116u8, 97u8, 46u8]
}

/// The pre-release that the text after the patch number names: after the
/// first `alpha.` an alpha identifier, else after the first `beta.` a beta
/// identifier, else none. The outer `None` is a malformed identifier.
pub open spec fn pre_release_of(r: Seq<u8>) -> Option<Option<PreRelease>> {
    match split_once(r, alpha_tag()) {
        Some((_, t)) => match parse_u8(t) {
            Some(x) => Some(Some(PreRelease::Alpha(x))),
            None => None,
        },
        None => match split_once(r, beta_tag()) {
            Some((_, t)) => match parse_u8(t) {
                Some(x) => Some(Some(PreRelease::Beta(x))),
                None => None,
            },
            None => Some(None),
        },
    }
}

/// The version that a string denotes, if any: major and minor each end at
/// the first `.`, the patch ends at the first `-` if there is one, and the
/// rest names the pre-release.
pub open spec fn parse_version(s: Seq<u8>) -> Option<Version> {
    match split_once(s, dot()) {
        None => None,
        Some((l1, r1)) => match parse_u8(l1) {
            None => None,
            Some(major) => match split_once(r1, dot()) {
                None => None,
                Some((l2, r2)) => match parse_u8(l2) {
                    None => None,
                    Some(minor) => {
                        let (l3, r3) = match split_once(r2, dash()) {
                            Some(p) => p,
                            None => (r2, Seq::<u8>::empty()),
                        };
                        match parse_u8(l3) {
                            None => None,
                            Some(patch) => match pre_release_of(r3) {
                                None => None,
                                Some(pre) => Some(Version { major, minor, patch, pre }),
                            },
                        }
                    },
                },
            },
        },
    }
}

fn matches_at(s: &[u8], pat: &[u8], i: usize) -> (r: bool)
    requires
        i + pat@.len() <= s@.len(),
    ensures
        r == occurs_at(s@, pat@, i as int),
{
    let n = s.len();
    let mut k: usize = 0;
    while k < pat.len()
        invariant
            i + pat@.len() <= s@.len(),
            n == s@.len(),
            k <= pat@.len(),
            s@.subrange(i as int, i + k) =~= pat@.subrange(0, k as int),
        decreases pat.len() - k,
    {
        if s[i + k] != pat[k] {
            assert(s@.subrange(i as int, i + pat@.len())[k as int] != pat@[k as int]);
            return false;
        }
        assert(s@.subrange(i as int, i + k + 1) =~= s@.subrange(i as int, i + k).push(s@[i + k]));
        assert(pat@.subrange(0, k + 1) =~= pat@.subrange(0, k as int).push(pat@[k as int]));
        k = k + 1;
    }
    assert(pat@.subrange(0, k as int) =~= pat@);
    true
}

/// Splits `s` around the first occurrence of `pat`.
fn split_once_exec<'a>(s: &'a [u8], pat: &[u8]) -> (r: Option<(&'a [u8], &'a [u8])>)
    requires
        pat@.len() > 0,
    ensures
        match split_once(s@, pat@) {
            None => r is None,
            Some((a, b)) => r matches Some((x, y)) && x@ == a && y@ == b,
        },
{
    if pat.len() > s.len() {
        assert(forall|i: int| !#[trigger] first_occurrence(s@, pat@, i));
        return None;
    }
    let n = s.len();
    let mut i: usize = 0;
    while i <= s.len() - pat.len()
        invariant
            n == s@.len(),
            0 < pat@.len() <= s@.len(),
            i <= s@.len() - pat@.len() + 1,
            forall|j: int| 0 <= j < i ==> !occurs_at(s@, pat@, j),
        decreases s.len() - pat.len() + 1 - i,
    {
        if matches_at(s, pat, i) {
            assert(first_occurrence(s@, pat@, i as int));
            assert forall|j: int| #[trigger] first_occurrence(s@, pat@, j) implies j == i by {
                if j < i {
                } else if j > i {
                    assert(!occurs_at(s@, pat@, i as int));
                }
            }
            let left = vstd::slice::slice_subrange(s, 0, i);
            let right = vstd::slice::slice_subrange(s, i + pat.len(), s.len());
            assert(left@ =~= s@.take(i as int));
            assert(right@ =~= s@.skip(i + pat@.len()));
            return Some((left, right));
        }
        i = i + 1;
    }
    assert(forall|i: int| !#[trigger] first_occurrence(s@, pat@, i));
    None
}

proof fn lemma_digits_prefix(s: Seq<u8>, k: int)
    requires
        0 <= k <= s.len(),
        forall|i: int| 0 <= i < s.len() ==> is_digit(#[trigger] s[i]),
    ensures
        digits_value(s.take(k)) <= digits_value(s),
    decreases s.len(),
{
    if k < s.len() {
        assert(s.drop_last().take(k) =~= s.take(k));
        lemma_digits_prefix(s.drop_last(), k);
    } else {
        assert(s.take(k) =~= s);
    }
}

/// Parses a `u8` as `str::parse` does: an optional `+` and decimal digits.
fn parse_u8_exec(s: &[u8]) -> (r: Option<u8>)
    ensures
        r == parse_u8(s@),
{
    let start: usize = if s.len() > 0 && s[0] == 43 {
        1
    } else {
        0
    };
    let ghost d = if s@.len() > 0 && s@[0] == 43 {
        s@.drop_first()
    } else {
        s@
    };
    assert(d =~= s@.skip(start as int));
    if start >= s.len() {
        return None;
    }
    let mut v: u32 = 0;
    let mut i: usize = start;
    while i < s.len()
        invariant
            start <= i <= s@.len(),
            d =~= s@.skip(start as int),
            d == (if s@.len() > 0 && s@[0] == 43 {
                s@.drop_first()
            } else {
                s@
            }),
            v <= 255,
            v == digits_value(d.take(i - start)),
            forall|j: int| 0 <= j < i - start ==> is_digit(#[trigger] d[j]),
        decreases s.len() - i,
    {
        let c = s[i];
        assert(d[i - start] == c);
        if c < 48 || c > 57 {
            assert(!is_digit(d[i - start]));
            return None;
        }
        assert(d.take(i - start + 1).drop_last() =~= d.take(i - start));
        assert(d.take(i - start + 1).last() == c);
        v = v * 10 + (c - 48) as u32;
        i = i + 1;
        if v > 255 {
            proof {
                if all_digits(d) {
                    lemma_digits_prefix(d, i - start);
                }
            }
            return None;
        }
    }
    assert(d.take(i - start) =~= d);
    Some(v as u8)
}

impl Version {
    /// Parses a version such as `1.2.3`, `1.2.3-alpha.1` or `1.2.3-beta.1`
    /// from its bytes.
    pub fn parse_bytes(s: &[u8]) -> (r: Result<Version, ParseVersionErr>)
        ensures
            match parse_version(s@) {
                Some(v) => r == Ok::<Version, ParseVersionErr>(v),
                None => r == Err::<Version, ParseVersionErr>(ParseVersionErr),
            },
    {
        let dot_sep: [u8; 1] = [46u8];
        let dash_sep: [u8; 1] = [45u8];
        let alpha: [u8; 6] = [97u8, 108u8, 112u8, 104u8, 97u8, 46u8];
        let beta: [u8; 5] = [98u8, 101u8, 116u8, 97u8, 46u8];
        assert(dot_sep@ =~= dot());
        assert(dash_sep@ =~= dash());
        assert(alpha@ =~= alpha_tag());
        assert(beta@ =~= beta_tag());
        let (l, r) = match split_once_exec(s, dot_sep.as_slice()) {
            Some(p) => p,
            None => return Err(ParseVersionErr),
        };
        let major = match parse_u8_exec(l) {
            Some(x) => x,
            None => return Err(ParseVersionErr),
        };
        let (l, r) = match split_once_exec(r, dot_sep.as_slice()) {
            Some(p) => p,
            None => return Err(ParseVersionErr),
        };
        let minor = match parse_u8_exec(l) {
            Some(x) => x,
            None => return Err(ParseVersionErr),
        };
        let (l, r) = match split_once_exec(r, dash_sep.as_slice()) {
            Some(p) => p,
            None => {
                let empty: &[u8] = vstd::slice::slice_subrange(r, r.len(), r.len());
                assert(empty@ =~= Seq::<u8>::empty());
                (r, empty)
            },
        };
        let patch = match parse_u8_exec(l) {
            Some(x) => x,
            None => return Err(ParseVersionErr),
        };
        let pre = match split_once_exec(r, alpha.as_slice()) {
            Some((_, t)) => match parse_u8_exec(t) {
                Some(x) => Some(PreRelease::Alpha(x)),
                None => return Err(ParseVersionErr),
            },
            None => match split_once_exec(r, beta.as_slice()) {
                Some((_, t)) => match parse_u8_exec(t) {
                    Some(x) => Some(PreRelease::Beta(x)),
                    None => return Err(ParseVersionErr),
                },
                None => None,
            },
        };
        Ok(Version { major, minor, patch, pre })
    }
}

impl core::str::FromStr for Version {
    type Err = ParseVersionErr;

    fn from_str(s: &str) -> Result<Self, Self::Err> {
        Version::parse_bytes(s.as_bytes())
    }
}

/// Prior to an update, the client prepares each server that is to receive
/// it; as the client knows each server's key, it tells it of the update.
pub struct PrepareForUpdate {
    /// The version of the update. A server updates only to a version
    /// greater than its own.
    pub version: Version,
    /// The server ports that the update applies to, as bits: bit 1 for port
    /// 1, bit 3 for port 3 and so on.
    pub server_ports: u8,
    /// The key under which the update messages that follow are encrypted.
    pub update_key: UpdateKey,
    /// The number of bytes of the whole update, so that a server can tell
    /// when it has missed a message and when it has all of them.
    pub update_byte_len: u32,
    /// Whether the update is signed. Checking a signature is left to the
    /// integrator.
    pub signed: bool,
}

/// The bytes of an update at an offset, as broadcast by the client to the
/// servers that it prepared. At most `N` bytes, and never more than 127.
pub struct Update<const N: usize> {
    pub byte_offset: u32,
    pub bytes: Vec<u8>,
}

impl<const N: usize> Update<N> {
    pub open spec fn wf(&self) -> bool {
        self.bytes@.len() <= N
    }
}

/// The number of bytes of an [Update] besides its `bytes`: four for the
/// offset and one for the length of the bytes, which cannot exceed 127.
pub const UPDATE_BYTES_OVERHEAD: usize = 4 + 1;

/// The number of bytes after which the client pauses long enough for the
/// servers to commit what they buffered to durable storage.
pub const UPDATE_BYTES_PROCESSING_THRESHOLD: u32 = 4096;

/// What a server knows of the update in progress.
#[derive(Clone, Copy)]
pub struct UpdateInfo {
    /// The key that the update messages are encrypted with.
    pub update_key: UpdateKey,
    /// The number of bytes of the whole update.
    pub byte_len: u32,
    /// The offset that the next update message must have.
    pub next_byte_offset: u32,
    /// The number of bytes committed to durable storage.
    pub committed: u32,
}

/// The state of a server's update machine.
#[derive(Clone, Copy)]
pub enum UpdateState {
    /// No update in progress.
    Idle,
    /// A newer version was announced; no bytes have arrived yet.
    Preparing(UpdateInfo),
    /// Bytes are arriving.
    Updating(UpdateInfo),
}

/// What a server does with an update message.
#[derive(Debug, Clone, Copy, PartialEq, Eq, Structural)]
pub enum ChunkAction {
    /// No update is in progress.
    Ignored,
    /// The message was not the one expected: the update is abandoned and
    /// its buffered bytes discarded.
    Aborted,
    /// The bytes were buffered.
    Buffered,
    /// The bytes complete a processing window: the buffer is committed.
    Committed,
    /// The bytes complete the update: the buffer is committed and the
    /// update is done.
    Completed,
}

/// The update in progress in a state, if any.
pub open spec fn info_of(s: UpdateState) -> Option<UpdateInfo> {
    match s {
        UpdateState::Idle => None,
        UpdateState::Preparing(i) => Some(i),
        UpdateState::Updating(i) => Some(i),
    }
}

/// How a server's update machine takes a message with `len` bytes at
/// `offset`: a message other than the expected one, or one that runs past
/// the end of the update, abandons it; otherwise the bytes are taken, and
/// the buffer is committed when the update is complete or a processing
/// window is full.
pub open spec fn chunk_step(s: UpdateState, offset: u32, len: nat) -> (UpdateState, ChunkAction) {
    match info_of(s) {
        None => (s, ChunkAction::Ignored),
        Some(info) => if offset != info.next_byte_offset || info.next_byte_offset + len
            > info.byte_len {
            (UpdateState::Idle, ChunkAction::Aborted)
        } else {
            let next = (info.next_byte_offset + len) as u32;
            if next == info.byte_len {
                (UpdateState::Idle, ChunkAction::Completed)
            } else if next % UPDATE_BYTES_PROCESSING_THRESHOLD == 0 {
                (
                    UpdateState::Updating(UpdateInfo { next_byte_offset: next, committed: next, ..info }),
                    ChunkAction::Committed,
                )
            } else {
                (
                    UpdateState::Updating(UpdateInfo { next_byte_offset: next, ..info }),
                    ChunkAction::Buffered,
                )
            }
        },
    }
}

/// The state after a sequence of messages, each given by its offset and
/// its number of bytes.
pub open spec fn run_chunks(s: UpdateState, chunks: Seq<(u32, nat)>) -> UpdateState
    decreases chunks.len(),
{
    if chunks.len() == 0 {
        s
    } else {
        run_chunks(chunk_step(s, chunks[0].0, chunks[0].1).0, chunks.drop_first())
    }
}

/// Whether each message starts where the one before it ends.
pub open spec fn contiguous(chunks: Seq<(u32, nat)>) -> bool {
    forall|i: int|
        1 <= i < chunks.len() ==> #[trigger] chunks[i].0 as int == chunks[i - 1].0 as int + chunks[i
            - 1].1 as int
}

impl UpdateState {
    /// Takes an announcement of an update: when its version is greater than
    /// the server's own, the server prepares for it, whatever it was doing,
    /// and otherwise ignores it. Returns whether it prepares.
    pub fn on_prepare(&mut self, prepare: &PrepareForUpdate, current: &Version) -> (accepted:
        bool)
        ensures
            accepted == (version_cmp(prepare.version, *current) == core::cmp::Ordering::Greater),
            accepted ==> *final(self) == UpdateState::Preparing(
                UpdateInfo {
                    update_key: prepare.update_key,
                    byte_len: prepare.update_byte_len,
                    next_byte_offset: 0,
                    committed: 0,
                },
            ),
            !accepted ==> *final(self) == *old(self),
    {
        let newer = match prepare.version.cmp_version(current) {
            core::cmp::Ordering::Greater => true,
            _ => false,
        };
        if newer {
            *self =
            UpdateState::Preparing(
                UpdateInfo {
                    update_key: prepare.update_key,
                    byte_len: prepare.update_byte_len,
                    next_byte_offset: 0,
                    committed: 0,
                },
            );
        }
        newer
    }

    /// Takes an update message and says what to do with its bytes.
    pub fn on_update<const N: usize>(&mut self, update: &Update<N>) -> (a: ChunkAction)
        ensures
            (*final(self), a) == chunk_step(*old(self), update.byte_offset, update.bytes@.len()),
    {
        let info = match *self {
            UpdateState::Idle => return ChunkAction::Ignored,
            UpdateState::Preparing(i) => i,
            UpdateState::Updating(i) => i,
        };
        let len = update.bytes.len();
        if update.byte_offset != info.next_byte_offset || info.next_byte_offset > info.byte_len
            || len > (info.byte_len - info.next_byte_offset) as usize {
            *self = UpdateState::Idle;
            return ChunkAction::Aborted;
        }
        let next = info.next_byte_offset + len as u32;
        if next == info.byte_len {
            *self = UpdateState::Idle;
            ChunkAction::Completed
        } else if next % UPDATE_BYTES_PROCESSING_THRESHOLD == 0 {
            *self = UpdateState::Updating(UpdateInfo { next_byte_offset: next, committed: next, ..info });
            ChunkAction::Committed
        } else {
            *self = UpdateState::Updating(UpdateInfo { next_byte_offset: next, ..info });
            ChunkAction::Buffered
        }
    }
}

/// How long the client waits after sending a chunk.
#[derive(Debug, Clone, Copy, PartialEq, Eq, Structural)]
pub enum Pause {
    /// Long enough for a server to receive and buffer the chunk.
    Short,
    /// Long enough for a server to also commit a full processing window.
    Long,
}

/// The client's walk through the bytes of an update: chunks of at most a
/// chunk size, never crossing a processing window, each followed by a
/// pause that is long when it ends a window.
pub struct UpdatePlan {
    byte_offset: u32,
    byte_len: u32,
    next_threshold: u32,
    chunk_size: u32,
}

/// The smaller of two integers.
pub open spec fn min_int(a: int, b: int) -> int {
    if a <= b {
        a
    } else {
        b
    }
}

impl UpdatePlan {
    /// The offset of the next chunk.
    pub closed spec fn offset(&self) -> nat {
        self.byte_offset as nat
    }

    /// The number of bytes of the update.
    pub closed spec fn len(&self) -> nat {
        self.byte_len as nat
    }

    /// Where the current processing window ends.
    pub closed spec fn threshold(&self) -> nat {
        self.next_threshold as nat
    }

    /// The largest number of bytes in a chunk.
    pub closed spec fn chunk_size(&self) -> nat {
        self.chunk_size as nat
    }

    pub open spec fn wf(&self) -> bool {
        &&& self.chunk_size() > 0
        &&& self.offset() <= self.threshold() <= self.len()
        &&& self.offset() < self.threshold() || self.offset() == self.len()
        &&& self.threshold() % (UPDATE_BYTES_PROCESSING_THRESHOLD as nat) == 0 || self.threshold()
            == self.len()
    }

    /// A plan for `byte_len` bytes in chunks of at most `chunk_size`.
    pub fn new(byte_len: u32, chunk_size: u32) -> (r: UpdatePlan)
        requires
            chunk_size > 0,
        ensures
            r.wf(),
            r.offset() == 0,
            r.len() == byte_len,
            r.chunk_size() == chunk_size,
            r.threshold() == min_int(UPDATE_BYTES_PROCESSING_THRESHOLD as int, byte_len as int),
    {
        let next_threshold = if byte_len < UPDATE_BYTES_PROCESSING_THRESHOLD {
            byte_len
        } else {
            UPDATE_BYTES_PROCESSING_THRESHOLD
        };
        UpdatePlan { byte_offset: 0, byte_len, next_threshold, chunk_size }
    }

    /// The next chunk to send, as the range of bytes from its first offset
    /// to the offset after it, and the pause that follows it; `None` once
    /// every byte was sent. A chunk ends at the chunk size or at the end of
    /// the window, whichever comes first; the pause is long exactly when it
    /// ends the window, and the next window then ends a threshold later or
    /// at the end of the update.
    pub fn next_chunk(&mut self) -> (r: Option<(u32, u32, Pause)>)
        requires
            old(self).wf(),
        ensures
            final(self).wf(),
            final(self).len() == old(self).len(),
            final(self).chunk_size() == old(self).chunk_size(),
            old(self).offset() == old(self).len() ==> r is None && *final(self) == *old(self),
            old(self).offset() < old(self).len() ==> (r matches Some((start, end, pause)) && {
                &&& start == old(self).offset()
                &&& end == min_int(
                    (old(self).offset() + old(self).chunk_size()) as int,
                    old(self).threshold() as int,
                )
                &&& start < end
                &&& final(self).offset() == end
                &&& (pause == Pause::Long <==> end == old(self).threshold())
                &&& pause == Pause::Long ==> end % UPDATE_BYTES_PROCESSING_THRESHOLD == 0
                    || end == old(self).len()
                &&& final(self).threshold() == if pause == Pause::Long {
                    min_int(
                        (old(self).threshold() + UPDATE_BYTES_PROCESSING_THRESHOLD) as int,
                        old(self).len() as int,
                    )
                } else {
                    old(self).threshold() as int
                }
            }),
    {
        if self.byte_offset >= self.byte_len {
            return None;
        }
        let start = self.byte_offset;
        let end = if self.chunk_size >= self.next_threshold - start {
            self.next_threshold
        } else {
            start + self.chunk_size
        };
        let pause = if end == self.next_threshold {
            self.next_threshold = if self.byte_len - self.next_threshold
                <= UPDATE_BYTES_PROCESSING_THRESHOLD {
                self.byte_len
            } else {
                self.next_threshold + UPDATE_BYTES_PROCESSING_THRESHOLD
            };
            Pause::Long
        } else {
            Pause::Short
        };
        self.byte_offset = end;
        Some((start, end, pause))
    }
}

proof fn lemma_idle_stays_idle(chunks: Seq<(u32, nat)>)
    ensures
        run_chunks(UpdateState::Idle, chunks) == UpdateState::Idle,
    decreases chunks.len(),
{
    if chunks.len() > 0 {
        lemma_idle_stays_idle(chunks.drop_first());
    }
}

/// When a non-empty message of a contiguous stream is lost and a later one
/// arrives, the server ends with no update in progress, whatever it was
/// doing: a server that was expecting the stream abandons it at the first
/// message after the gap, and an idle server stays idle.
pub proof fn lemma_lost_chunk_aborts(s: UpdateState, chunks: Seq<(u32, nat)>, k: int)
    requires
        contiguous(chunks),
        0 <= k < chunks.len() - 1,
        chunks[k].1 > 0,
        info_of(s) matches Some(info) ==> info.next_byte_offset == chunks[0].0,
    ensures
        run_chunks(s, chunks.remove(k)) == UpdateState::Idle,
    decreases k,
{
    let rest = chunks.remove(k);
    if k == 0 {
        assert(rest =~= chunks.drop_first());
        assert(chunks[1].0 as int == chunks[0].0 as int + chunks[0].1 as int);
        let s1 = chunk_step(s, rest[0].0, rest[0].1).0;
        assert(s1 == UpdateState::Idle);
        lemma_idle_stays_idle(rest.drop_first());
    } else {
        let tail = chunks.drop_first();
        assert(rest.drop_first() =~= tail.remove(k - 1));
        let s1 = chunk_step(s, chunks[0].0, chunks[0].1).0;
        assert(rest[0] == chunks[0]);
        if s1 is Idle {
            lemma_idle_stays_idle(rest.drop_first());
        } else {
            assert(chunks[1].0 as int == chunks[0].0 as int + chunks[0].1 as int);
            assert forall|i: int| 1 <= i < tail.len() implies #[trigger] tail[i].0 as int == tail[i
                - 1].0 as int + tail[i - 1].1 as int by {
                assert(chunks[i + 1].0 as int == chunks[i].0 as int + chunks[i].1 as int);
            }
            lemma_lost_chunk_aborts(s1, tail, k - 1);
        }
    }
}

} // verus!
