//! The decisions of downloading: where an object lands on disk, which pool
//! takes it, and what a transfer reports as it goes.

use vstd::prelude::*;
use crate::engine::S3Object;
use crate::matcher::first_glob;
use crate::text::{chars_of, copy_str, has_prefix, same_chars, starts_with, string_of};

verus! {

/// How keys map to local paths.
#[derive(Clone, Copy, Debug, PartialEq, Eq, Structural)]
pub enum PathMode {
    Abs,
    Absolute,
    G,
    FromFirstGlob,
    S,
    Shortest,
}

/// Whether two strings hold the same characters.
pub fn str_eq(a: &str, b: &str) -> (r: bool)
    ensures
        r == (a@ == b@),
{
    same_chars(&chars_of(a), &chars_of(b))
}

impl PathMode {
    /// The mode a command-line word names.
    pub fn from_str(s: &str, _ignore_case: bool) -> (r: Result<PathMode, String>)
        ensures
            r matches Ok(m) ==> (m == PathMode::Absolute && (s@ == "absolute"@ || s@ == "abs"@)) || (m
                == PathMode::FromFirstGlob && (s@ == "from-first-glob"@ || s@ == "g"@)) || (m
                == PathMode::Shortest && (s@ == "shortest"@ || s@ == "s"@)),
            r is Err <==> !(s@ == "absolute"@ || s@ == "abs"@ || s@ == "from-first-glob"@ || s@
                == "g"@ || s@ == "shortest"@ || s@ == "s"@),
            r matches Err(msg) ==> msg@ == "invalid path type: "@ + s@,
    {
        if str_eq(s, "absolute") || str_eq(s, "abs") {
            Ok(PathMode::Absolute)
        } else if str_eq(s, "from-first-glob") || str_eq(s, "g") {
            Ok(PathMode::FromFirstGlob)
        } else if str_eq(s, "shortest") || str_eq(s, "s") {
            Ok(PathMode::Shortest)
        } else {
            let mut msg = String::new();
            msg.push_str("invalid path type: ");
            msg.push_str(s);
            Err(msg)
        }
    }
}

/// The last index of `c` in `s`.
pub open spec fn last_index_of(s: Seq<char>, c: char) -> Option<int>
    decreases s.len(),
{
    if s.len() == 0 {
        None
    } else if s.last() == c {
        Some(s.len() - 1)
    } else {
        last_index_of(s.drop_last(), c)
    }
}

/// `s` up to and including its last delimiter `d`, or nothing when it has
/// none.
pub open spec fn directory_of(s: Seq<char>, d: char) -> Seq<char> {
    match last_index_of(s, d) {
        Some(i) => s.take(i + 1),
        None => seq![],
    }
}

/// The longest common prefix of `a` and `b`.
pub open spec fn common_prefix(a: Seq<char>, b: Seq<char>) -> Seq<char>
    decreases a.len(),
{
    if a.len() == 0 || b.len() == 0 || a[0] != b[0] {
        seq![]
    } else {
        seq![a[0]] + common_prefix(a.skip(1), b.skip(1))
    }
}

/// The longest common prefix of all of `keys`, folded from the first.
pub open spec fn common_prefix_all(keys: Seq<Seq<char>>) -> Seq<char>
    decreases keys.len(),
{
    if keys.len() == 0 {
        seq![]
    } else if keys.len() == 1 {
        keys[0]
    } else {
        common_prefix(common_prefix_all(keys.drop_last()), keys.last())
    }
}

/// The part of the pattern before its first glob character, cut after its
/// last delimiter, so that a partial file name stays in the local path.
pub open spec fn literal_directory(raw: Seq<char>, d: char) -> Seq<char> {
    let up = match first_glob(raw, 0) {
        Some(k) => raw.take(k),
        None => raw,
    };
    directory_of(up, d)
}

pub open spec fn s3_keys(v: Seq<S3Object>) -> Seq<Seq<char>> {
    v.map_values(|o: S3Object| o.key@)
}

/// The prefix to strip from keys under a path mode.
pub open spec fn strip_spec(raw: Seq<char>, mode: PathMode, keys: Seq<Seq<char>>, d: char) -> Seq<char> {
    match mode {
        PathMode::Abs | PathMode::Absolute => seq![],
        PathMode::G | PathMode::FromFirstGlob => literal_directory(raw, d),
        PathMode::S | PathMode::Shortest => directory_of(common_prefix_all(keys), d),
    }
}

fn find_last(s: &Vec<char>, c: char) -> (r: Option<usize>)
    ensures
        match r {
            Some(i) => last_index_of(s@, c) == Some(i as int) && i < s@.len(),
            None => last_index_of(s@, c) is None,
        },
{
    let mut n: usize = s.len();
    assert(s@.take(n as int) == s@);
    while n > 0
        invariant
            0 <= n <= s@.len(),
            last_index_of(s@, c) == last_index_of(s@.take(n as int), c),
        decreases n,
    {
        if s[n - 1] == c {
            assert(s@.take(n as int).last() == c);
            return Some(n - 1);
        }
        assert(s@.take(n as int).drop_last() =~= s@.take(n - 1));
        n = n - 1;
    }
    None
}

/// The longest common prefix of `a` and `b`.
fn common_prefix_of(a: &Vec<char>, b: &Vec<char>) -> (r: Vec<char>)
    ensures
        r@ == common_prefix(a@, b@),
{
    let mut i: usize = 0;
    while i < a.len() && i < b.len() && a[i] == b[i]
        invariant
            0 <= i <= a@.len(),
            i <= b@.len(),
            forall|j: int| 0 <= j < i ==> a@[j] == b@[j],
        decreases a.len() - i,
    {
        i = i + 1;
    }
    proof {
        lemma_common_prefix(a@, b@, i as int);
    }
    let mut r: Vec<char> = Vec::new();
    let mut k: usize = 0;
    while k < i
        invariant
            0 <= k <= i <= a@.len(),
            r@ == a@.take(k as int),
        decreases i - k,
    {
        r.push(a[k]);
        k = k + 1;
        assert(r@ =~= a@.take(k as int));
    }
    r
}

proof fn lemma_common_prefix(a: Seq<char>, b: Seq<char>, i: int)
    requires
        0 <= i <= a.len(),
        i <= b.len(),
        forall|j: int| 0 <= j < i ==> a[j] == b[j],
        i == a.len() || i == b.len() || a[i] != b[i],
    ensures
        common_prefix(a, b) == a.take(i),
    decreases a.len(),
{
    if i == 0 {
        assert(a.take(0) =~= Seq::<char>::empty());
    } else {
        lemma_common_prefix(a.skip(1), b.skip(1), i - 1);
        assert(seq![a[0]] + a.skip(1).take(i - 1) =~= a.take(i));
    }
}

/// The prefix to strip from each key before it becomes a local path: none
/// under `absolute`; the pattern's literal directory under
/// `from-first-glob`; the directory of the keys' longest common prefix under
/// `shortest`. Directories end with `delimiter`.
pub fn extract_prefix_to_strip(raw_pattern: &str, path_mode: PathMode, keys: &[S3Object], delimiter: char) -> (r: String)
    ensures
        r@ == strip_spec(raw_pattern@, path_mode, s3_keys(keys@), delimiter),
{
    match path_mode {
        PathMode::Abs | PathMode::Absolute => String::new(),
        PathMode::G | PathMode::FromFirstGlob => {
            let raw = chars_of(raw_pattern);
            let mut k: usize = 0;
            while k < raw.len() && !crate::glob::glob_char(raw[k])
                invariant
                    0 <= k <= raw@.len(),
                    forall|j: int| 0 <= j < k ==> !crate::glob::is_glob_char(raw@[j]),
                decreases raw.len() - k,
            {
                k = k + 1;
            }
            proof {
                crate::matcher::lemma_first_glob(raw@, 0, k as int);
                if k == raw@.len() {
                    assert(raw@.take(k as int) == raw@);
                }
            }
            let up = tail_free(&raw, k);
            let _ulen = up.len();
            match find_last(&up, delimiter) {
                Some(i) => string_of(&up, 0, i + 1),
                None => String::new(),
            }
        },
        PathMode::S | PathMode::Shortest => {
            if keys.len() == 0 {
                return String::new();
            }
            let mut prefix = chars_of(keys[0].key.as_str());
            let mut i: usize = 1;
            assert(s3_keys(keys@).take(1) =~= seq![keys@[0].key@]);
            while i < keys.len()
                invariant
                    1 <= i <= keys@.len(),
                    prefix@ == common_prefix_all(s3_keys(keys@).take(i as int)),
                decreases keys.len() - i,
            {
                let next = chars_of(keys[i].key.as_str());
                prefix = common_prefix_of(&prefix, &next);
                assert(s3_keys(keys@).take(i + 1).drop_last() =~= s3_keys(keys@).take(i as int));
                i = i + 1;
            }
            assert(s3_keys(keys@).take(keys@.len() as int) == s3_keys(keys@));
            let _plen = prefix.len();
            match find_last(&prefix, delimiter) {
                Some(i) => string_of(&prefix, 0, i + 1),
                None => String::new(),
            }
        },
    }
}

/// `v[0..n]` as a new vector.
fn tail_free(v: &Vec<char>, n: usize) -> (r: Vec<char>)
    requires
        n <= v@.len(),
    ensures
        r@ == v@.take(n as int),
{
    let mut r: Vec<char> = Vec::new();
    let mut k: usize = 0;
    while k < n
        invariant
            0 <= k <= n <= v@.len(),
            r@ == v@.take(k as int),
        decreases n - k,
    {
        r.push(v[k]);
        k = k + 1;
        assert(r@ =~= v@.take(k as int));
    }
    r
}

/// Every delimiter `d` of `s` replaced by `-`.
pub open spec fn flattened(s: Seq<char>, d: char) -> Seq<char> {
    s.map_values(|c: char| if c == d { '-' } else { c })
}

/// The local path of `key` relative to the destination: the key without
/// `prefix_to_strip`, flattened when asked. None when the key does not begin
/// with that prefix.
pub fn relative_path(key: &str, prefix_to_strip: &str, flatten: bool, delimiter: char) -> (r: Option<String>)
    ensures
        r is None <==> !starts_with(key@, prefix_to_strip@),
        r matches Some(p) ==> p@ == if flatten {
            flattened(key@.skip(prefix_to_strip@.len() as int), delimiter)
        } else {
            key@.skip(prefix_to_strip@.len() as int)
        },
{
    let k = chars_of(key);
    let p = chars_of(prefix_to_strip);
    if !has_prefix(&k, &p) {
        return None;
    }
    let mut out = String::new();
    let mut i: usize = p.len();
    while i < k.len()
        invariant
            p@.len() <= i <= k@.len(),
            out@ == if flatten {
                flattened(k@.subrange(p@.len() as int, i as int), delimiter)
            } else {
                k@.subrange(p@.len() as int, i as int)
            },
        decreases k.len() - i,
    {
        let c = k[i];
        if flatten && c == delimiter {
            out.push('-');
        } else {
            out.push(c);
        }
        i = i + 1;
        assert(k@.subrange(p@.len() as int, i as int) =~= k@.subrange(p@.len() as int, i - 1).push(c));
        assert(out@ =~= if flatten {
            flattened(k@.subrange(p@.len() as int, i as int), delimiter)
        } else {
            k@.subrange(p@.len() as int, i as int)
        });
    }
    assert(k@.subrange(p@.len() as int, k@.len() as int) == k@.skip(p@.len() as int));
    Some(out)
}

/// The decimal digits of `n`.
pub open spec fn decimal(n: nat) -> Seq<char>
    decreases n,
{
    if n < 10 {
        seq![digit(n)]
    } else {
        decimal(n / 10) + seq![digit(n % 10)]
    }
}

pub open spec fn digit(n: nat) -> char {
    if n == 0 { '0' } else if n == 1 { '1' } else if n == 2 { '2' } else if n == 3 { '3' }
    else if n == 4 { '4' } else if n == 5 { '5' } else if n == 6 { '6' } else if n == 7 { '7' }
    else if n == 8 { '8' } else { '9' }
}

fn digit_char(n: u64) -> (r: char)
    requires
        n < 10,
    ensures
        r == digit(n as nat),
{
    if n == 0 { '0' } else if n == 1 { '1' } else if n == 2 { '2' } else if n == 3 { '3' }
    else if n == 4 { '4' } else if n == 5 { '5' } else if n == 6 { '6' } else if n == 7 { '7' }
    else if n == 8 { '8' } else { '9' }
}

/// Appends the decimal digits of `n`.
pub fn push_decimal(s: &mut String, n: u64)
    ensures
        final(s)@ == old(s)@ + decimal(n as nat),
    decreases n,
{
    if n < 10 {
        s.push(digit_char(n));
    } else {
        push_decimal(s, n / 10);
        s.push(digit_char(n % 10));
    }
}

/// Where a transfer is written before it is renamed into place.
pub fn temp_path(local: &str, id: u64) -> (r: String)
    ensures
        r@ == local@ + ".s3glob-tmp-"@ + decimal(id as nat),
{
    let mut r = copy_str(local);
    r.push_str(".s3glob-tmp-");
    push_decimal(&mut r, id);
    r
}

/// The four download pools, by object size.
#[derive(Clone, Copy, Debug, PartialEq, Eq, Structural)]
pub enum Pool {
    /// Under 200 000 bytes.
    Small,
    /// From 200 000 to 999 999 bytes.
    Medium,
    /// From 1 000 000 to 9 999 999 bytes.
    Large,
    /// 10 000 000 bytes and more.
    Huge,
}

/// The pool that takes an object of `size` bytes.
pub fn pool_for_size(size: i64) -> (r: Pool)
    ensures
        r == (if size < 200_000 {
            Pool::Small
        } else if size < 1_000_000 {
            Pool::Medium
        } else if size < 10_000_000 {
            Pool::Large
        } else {
            Pool::Huge
        }),
{
    if size < 200_000 {
        Pool::Small
    } else if size < 1_000_000 {
        Pool::Medium
    } else if size < 10_000_000 {
        Pool::Large
    } else {
        Pool::Huge
    }
}

pub open spec fn pool_default(p: Pool) -> int {
    match p {
        Pool::Small => 500,
        Pool::Medium => 50,
        Pool::Large => 10,
        Pool::Huge => 5,
    }
}

/// How many transfers a pool runs at once: its own cap, never above the
/// global one.
pub fn pool_limit(pool: Pool, max_parallelism: usize) -> (r: usize)
    ensures
        r as int == if pool_default(pool) < max_parallelism {
            pool_default(pool)
        } else {
            max_parallelism as int
        },
        r <= max_parallelism,
{
    let cap: usize = match pool {
        Pool::Small => 500,
        Pool::Medium => 50,
        Pool::Large => 10,
        Pool::Huge => 5,
    };
    if cap < max_parallelism {
        cap
    } else {
        max_parallelism
    }
}

/// What a transfer reports.
#[derive(Debug)]
pub enum Notification {
    /// The object is complete at this local path.
    ObjectDownloaded(String),
    /// This many more bytes were written.
    BytesDownloaded(usize),
}

pub enum NotificationView {
    ObjectDownloaded(Seq<char>),
    BytesDownloaded(nat),
}

impl View for Notification {
    type V = NotificationView;

    open spec fn view(&self) -> NotificationView {
        match self {
            Notification::ObjectDownloaded(p) => NotificationView::ObjectDownloaded(p@),
            Notification::BytesDownloaded(n) => NotificationView::BytesDownloaded(*n as nat),
        }
    }
}

/// Where a transfer stands.
#[derive(Clone, Copy, Debug, PartialEq, Eq, Structural)]
pub enum TransferPhase {
    /// Body chunks are being written to the temporary file.
    Receiving,
    /// The body ended and the file is closed; it awaits its rename.
    Finishing,
    /// The file is in place.
    Done,
    /// A step failed; the object is given up.
    Abandoned,
}

/// What happened to a transfer since its last step.
#[derive(Clone, Copy, Debug, PartialEq, Eq, Structural)]
pub enum TransferEvent {
    /// A chunk of this many bytes was written to the temporary file.
    ChunkWritten(usize),
    /// The body ended and the temporary file was flushed and closed.
    BodyEnded,
    /// The temporary file was renamed to its final path.
    Renamed,
    /// A request, a write, a flush or the rename failed.
    Failed,
}

/// The download of one object to one local path.
#[derive(Debug)]
pub struct Transfer {
    pub local: String,
    pub written: u64,
    pub phase: TransferPhase,
}

pub struct TransferView {
    pub local: Seq<char>,
    pub written: nat,
    pub phase: TransferPhase,
}

impl View for Transfer {
    type V = TransferView;

    open spec fn view(&self) -> TransferView {
        TransferView { local: self.local@, written: self.written as nat, phase: self.phase }
    }
}

/// One step of a transfer: its next state and what it reports.
pub open spec fn step_spec(t: TransferView, e: TransferEvent) -> (TransferView, Option<NotificationView>) {
    match (t.phase, e) {
        (TransferPhase::Receiving, TransferEvent::ChunkWritten(n)) => (
            TransferView { written: t.written + n as nat, ..t },
            Some(NotificationView::BytesDownloaded(n as nat)),
        ),
        (TransferPhase::Receiving, TransferEvent::BodyEnded) => (
            TransferView { phase: TransferPhase::Finishing, ..t },
            None,
        ),
        (TransferPhase::Finishing, TransferEvent::Renamed) => (
            TransferView { phase: TransferPhase::Done, ..t },
            Some(NotificationView::ObjectDownloaded(t.local)),
        ),
        (TransferPhase::Receiving, TransferEvent::Failed) | (
            TransferPhase::Finishing,
            TransferEvent::Failed,
        ) => (TransferView { phase: TransferPhase::Abandoned, ..t }, None),
        _ => (t, None),
    }
}

impl Transfer {
    /// A transfer to `local` that has written nothing yet.
    pub fn start(local: String) -> (r: Transfer)
        ensures
            r@ == (TransferView { local: local@, written: 0, phase: TransferPhase::Receiving }),
    {
        Transfer { local, written: 0, phase: TransferPhase::Receiving }
    }

    /// Advances the transfer by `event`. The object is reported complete
    /// only on its rename, and every written chunk is reported once.
    pub fn step(self, event: TransferEvent) -> (r: (Transfer, Option<Notification>))
        requires
            event matches TransferEvent::ChunkWritten(n) ==> self.written + n <= u64::MAX,
        ensures
            (r.0@, match r.1 {
                Some(n) => Some(n@),
                None => None,
            }) == step_spec(self@, event),
    {
        match (self.phase, event) {
            (TransferPhase::Receiving, TransferEvent::ChunkWritten(n)) => {
                let written = self.written + n as u64;
                (
                    Transfer { local: self.local, written, phase: TransferPhase::Receiving },
                    Some(Notification::BytesDownloaded(n)),
                )
            },
            (TransferPhase::Receiving, TransferEvent::BodyEnded) => (
                Transfer { local: self.local, written: self.written, phase: TransferPhase::Finishing },
                None,
            ),
            (TransferPhase::Finishing, TransferEvent::Renamed) => {
                let path = copy_str(self.local.as_str());
                (
                    Transfer { local: self.local, written: self.written, phase: TransferPhase::Done },
                    Some(Notification::ObjectDownloaded(path)),
                )
            },
            (TransferPhase::Receiving, TransferEvent::Failed) | (
                TransferPhase::Finishing,
                TransferEvent::Failed,
            ) => (
                Transfer { local: self.local, written: self.written, phase: TransferPhase::Abandoned },
                None,
            ),
            _ => (self, None),
        }
    }
}

/// A transfer driven through a sequence of events, with all it reported.
pub open spec fn run(t: TransferView, events: Seq<TransferEvent>) -> (TransferView, Seq<NotificationView>)
    decreases events.len(),
{
    if events.len() == 0 {
        (t, seq![])
    } else {
        let (t1, ns) = run(t, events.drop_last());
        let (t2, n) = step_spec(t1, events.last());
        (t2, match n {
            Some(x) => ns.push(x),
            None => ns,
        })
    }
}

/// The bytes reported.
pub open spec fn bytes_reported(ns: Seq<NotificationView>) -> nat
    decreases ns.len(),
{
    if ns.len() == 0 {
        0
    } else {
        bytes_reported(ns.drop_last()) + match ns.last() {
            NotificationView::BytesDownloaded(n) => n,
            _ => 0,
        }
    }
}

/// Whether some notification reports the object complete.
pub open spec fn reports_done(ns: Seq<NotificationView>) -> bool {
    exists|i: int| 0 <= i < ns.len() && ns[i] is ObjectDownloaded
}

/// Over any run of a transfer, the bytes reported add up to the bytes
/// written, and the object is reported complete at most once, only after its
/// rename, and only when the run ends with the file in place.
pub proof fn lemma_transfer_reports(t: TransferView, events: Seq<TransferEvent>)
    requires
        t.phase == TransferPhase::Receiving,
    ensures
        ({
            let (end, ns) = run(t, events);
            &&& bytes_reported(ns) + t.written == end.written
            &&& end.local == t.local
            &&& (reports_done(ns) <==> end.phase == TransferPhase::Done)
            &&& forall|i: int, j: int|
                0 <= i < j < ns.len() ==> !(ns[i] is ObjectDownloaded && ns[j] is ObjectDownloaded)
            &&& forall|i: int| #![auto] 0 <= i < ns.len() && ns[i] is ObjectDownloaded ==> i == ns.len() - 1
        }),
    decreases events.len(),
{
    if events.len() > 0 {
        lemma_transfer_reports(t, events.drop_last());
        let (t1, ns) = run(t, events.drop_last());
        let (t2, n) = step_spec(t1, events.last());
        let ns2 = run(t, events).1;
        if let Some(x) = n {
            assert(ns2 == ns.push(x));
            assert(ns2.drop_last() == ns);
            assert forall|i: int| 0 <= i < ns.len() implies ns2[i] == ns[i] by {}
            if reports_done(ns) {
                let i = choose|i: int| 0 <= i < ns.len() && ns[i] is ObjectDownloaded;
                assert(ns2[i] is ObjectDownloaded);
            }
            if x is ObjectDownloaded {
                assert(ns2[ns.len() as int] is ObjectDownloaded);
            }
        }
    } else {
        assert(!reports_done(Seq::<NotificationView>::empty()));
    }
}

} // verus!
