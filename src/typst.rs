use vstd::prelude::*;
use vstd::multiset::Multiset;
use vstd::utf8::*;

use crate::content::{
    as_ints, lemma_as_ints_step, lemma_debounce_bound, non_decreasing, run_requests,
};
use crate::error::TypstError;

verus! {

broadcast use vstd::seq_lib::group_to_multiset_ensures;

/// One entry of the scratch directory, as the file system listed it.
pub struct ScratchEntry {
    /// The full path of the entry.
    pub path: String,
    /// Its file name.
    pub name: String,
    /// It is a regular file.
    pub is_file: bool,
    /// Its last-modified time; `None` where that could not be read.
    pub modified: Option<u64>,
}

/// The bytes of `.svg`.
pub open spec fn svg_suffix() -> Seq<u8> {
    seq![46u8, 115u8, 118u8, 103u8]
}

/// A file name whose extension is `svg`: it ends in `.svg` after a non-empty stem.
pub open spec fn is_svg_name(name: Seq<u8>) -> bool {
    name.len() > 4 && name.subrange(name.len() - 4, name.len() as int) == svg_suffix()
}

/// The bytes of an entry's file name.
pub open spec fn name_bytes(e: ScratchEntry) -> Seq<u8> {
    encode_utf8(e.name@)
}

/// An entry that is a rendered page: a regular file with the `svg` extension.
pub open spec fn is_page(e: ScratchEntry) -> bool {
    e.is_file && is_svg_name(name_bytes(e))
}

/// The rendered pages among `s`, in their order.
pub open spec fn pages(s: Seq<ScratchEntry>) -> Seq<ScratchEntry> {
    s.filter(|e: ScratchEntry| is_page(e))
}

/// Byte-wise lexicographic order on `a` and `b`, from position `i` on.
pub open spec fn le_from(a: Seq<u8>, b: Seq<u8>, i: int) -> bool
    decreases a.len() - i,
{
    if i < 0 || i >= a.len() {
        true
    } else if i >= b.len() {
        false
    } else if a[i] != b[i] {
        a[i] < b[i]
    } else {
        le_from(a, b, i + 1)
    }
}

/// `x` comes no later than `y` in the order of file names.
pub open spec fn name_le(x: ScratchEntry, y: ScratchEntry) -> bool {
    le_from(name_bytes(x), name_bytes(y), 0)
}

/// The entries are in the order of their file names.
pub open spec fn sorted_by_name(s: Seq<ScratchEntry>) -> bool {
    forall|i: int, j: int| 0 <= i < j < s.len() ==> name_le(#[trigger] s[i], #[trigger] s[j])
}

proof fn lemma_le_total(a: Seq<u8>, b: Seq<u8>, i: int)
    requires
        0 <= i,
    ensures
        le_from(a, b, i) || le_from(b, a, i),
    decreases a.len() - i,
{
    if i < a.len() && i < b.len() && a[i] == b[i] {
        lemma_le_total(a, b, i + 1);
    }
}

proof fn lemma_le_trans(a: Seq<u8>, b: Seq<u8>, c: Seq<u8>, i: int)
    requires
        0 <= i,
        le_from(a, b, i),
        le_from(b, c, i),
    ensures
        le_from(a, c, i),
    decreases a.len() - i,
{
    if i < a.len() && i < b.len() && i < c.len() && a[i] == b[i] && b[i] == c[i] {
        lemma_le_trans(a, b, c, i + 1);
    }
}

proof fn lemma_le_antisymmetric(a: Seq<u8>, b: Seq<u8>, i: int)
    requires
        0 <= i <= a.len(),
        i <= b.len(),
        le_from(a, b, i),
        le_from(b, a, i),
    ensures
        a.subrange(i, a.len() as int) == b.subrange(i, b.len() as int),
    decreases a.len() - i,
{
    if i < a.len() {
        lemma_le_antisymmetric(a, b, i + 1);
        assert(a.subrange(i, a.len() as int) =~= seq![a[i]] + a.subrange(i + 1, a.len() as int));
        assert(b.subrange(i, b.len() as int) =~= seq![b[i]] + b.subrange(i + 1, b.len() as int));
    } else {
        assert(a.subrange(i, a.len() as int) =~= b.subrange(i, b.len() as int));
    }
}

/// Entries with the same file name are the same entry, as in one directory.
pub open spec fn names_unique(m: Multiset<ScratchEntry>) -> bool {
    forall|x: ScratchEntry, y: ScratchEntry|
        #[trigger] m.count(x) > 0 && #[trigger] m.count(y) > 0 && name_bytes(x) == name_bytes(y)
            ==> x == y
}

/// Entries with distinct file names have one order by name only: any two
/// sorted arrangements of them are the same sequence.
pub proof fn lemma_name_order_unique(a: Seq<ScratchEntry>, b: Seq<ScratchEntry>)
    requires
        a.to_multiset() == b.to_multiset(),
        sorted_by_name(a),
        sorted_by_name(b),
        names_unique(a.to_multiset()),
    ensures
        a == b,
    decreases a.len(),
{
    broadcast use vstd::seq_lib::group_to_multiset_ensures;

    vstd::seq_lib::to_multiset_len(a);
    vstd::seq_lib::to_multiset_len(b);
    assert(a.len() == b.len());
    if a.len() > 0 {
        assert(a.to_multiset().count(b[0]) > 0);
        assert(b.to_multiset().count(a[0]) > 0);
        let i = choose|i: int| 0 <= i < a.len() && a[i] == b[0];
        let j = choose|j: int| 0 <= j < b.len() && b[j] == a[0];
        if i > 0 {
            assert(name_le(a[0], a[i]));
        }
        if j > 0 {
            assert(name_le(b[0], b[j]));
        }
        if i > 0 && j > 0 {
            let x = name_bytes(a[0]);
            let y = name_bytes(b[0]);
            lemma_le_antisymmetric(x, y, 0);
            assert(x.subrange(0, x.len() as int) =~= x);
            assert(y.subrange(0, y.len() as int) =~= y);
            assert(a.to_multiset().count(a[0]) > 0);
            assert(a.to_multiset().count(a[i]) > 0);
        }
        assert(a[0] == b[0]);
        let a1 = a.drop_first();
        let b1 = b.drop_first();
        assert(a1 =~= a.remove(0));
        assert(b1 =~= b.remove(0));
        assert(a1.to_multiset() == b1.to_multiset());
        assert(sorted_by_name(a1)) by {
            assert forall|x: int, y: int| 0 <= x < y < a1.len() implies name_le(
                #[trigger] a1[x],
                #[trigger] a1[y],
            ) by {
                assert(name_le(a[x + 1], a[y + 1]));
            }
        }
        assert(sorted_by_name(b1)) by {
            assert forall|x: int, y: int| 0 <= x < y < b1.len() implies name_le(
                #[trigger] b1[x],
                #[trigger] b1[y],
            ) by {
                assert(name_le(b[x + 1], b[y + 1]));
            }
        }
        assert(names_unique(a1.to_multiset())) by {
            assert(a1.to_multiset() =~= a.to_multiset().remove(a[0]));
            assert forall|x: ScratchEntry, y: ScratchEntry|
                #[trigger] a1.to_multiset().count(x) > 0 && #[trigger] a1.to_multiset().count(y) > 0
                    && name_bytes(x) == name_bytes(y) implies x == y by {
                assert(a.to_multiset().count(x) > 0);
                assert(a.to_multiset().count(y) > 0);
            }
        }
        lemma_name_order_unique(a1, b1);
        assert(a =~= b) by {
            assert forall|k: int| 0 <= k < a.len() implies a[k] == b[k] by {
                if k > 0 {
                    assert(a[k] == a1[k - 1]);
                    assert(b[k] == b1[k - 1]);
                }
            }
        }
    } else {
        assert(a =~= b);
    }
}

fn is_svg_file_name(name: &String) -> (r: bool)
    ensures
        r == is_svg_name(encode_utf8(name@)),
{
    let b = name.as_str().as_bytes();
    let n = b.len();
    let r = n > 4 && b[n - 4] == 46 && b[n - 3] == 115 && b[n - 2] == 118 && b[n - 1] == 103;
    proof {
        if n > 4 {
            let tail = b@.subrange(n - 4, n as int);
            if r {
                assert(tail =~= svg_suffix());
            } else if tail == svg_suffix() {
                assert(tail[0] == b@[n - 4]);
                assert(tail[1] == b@[n - 3]);
                assert(tail[2] == b@[n - 2]);
                assert(tail[3] == b@[n - 1]);
            }
        }
    }
    r
}

fn names_in_order(x: &ScratchEntry, y: &ScratchEntry) -> (r: bool)
    ensures
        r == name_le(*x, *y),
{
    let a = x.name.as_str().as_bytes();
    let b = y.name.as_str().as_bytes();
    let mut i: usize = 0;
    while i < a.len()
        invariant
            i <= a.len(),
            a@ == name_bytes(*x),
            b@ == name_bytes(*y),
            le_from(a@, b@, 0) == le_from(a@, b@, i as int),
        decreases a.len() - i,
    {
        if i >= b.len() {
            return false;
        }
        if a[i] != b[i] {
            return a[i] < b[i];
        }
        i = i + 1;
    }
    true
}

/// Keeps the entries that are rendered pages, in their order.
pub fn select_pages(entries: Vec<ScratchEntry>) -> (r: Vec<ScratchEntry>)
    ensures
        r@ == pages(entries@),
{
    let ghost orig = entries@;
    let mut rest = entries;
    let mut out: Vec<ScratchEntry> = Vec::new();
    let n = rest.len();
    let mut k: usize = 0;
    while k < n
        invariant
            n == orig.len(),
            k <= n,
            rest@ == orig.subrange(k as int, n as int),
            out@ == pages(orig.subrange(0, k as int)),
        decreases n - k,
    {
        let x = rest.remove(0);
        assert(rest@ =~= orig.subrange(k + 1, n as int));
        let ghost prev = out@;
        assert(x == orig[k as int]);
        assert(orig.subrange(0, k + 1).last() == x);
        if x.is_file && is_svg_file_name(&x.name) {
            out.push(x);
            assert(out@ == prev.push(x));
        }
        assert(out@ == pages(orig.subrange(0, k + 1))) by {
            reveal(Seq::filter);
            assert(orig.subrange(0, k + 1).drop_last() =~= orig.subrange(0, k as int));
        }
        k = k + 1;
    }
    assert(orig.subrange(0, n as int) =~= orig);
    out
}

/// Sorts entries by file name, byte by byte.
pub fn sort_by_name(entries: Vec<ScratchEntry>) -> (r: Vec<ScratchEntry>)
    ensures
        r@.to_multiset() == entries@.to_multiset(),
        sorted_by_name(r@),
{
    let ghost orig = entries@;
    let mut rest = entries;
    let mut out: Vec<ScratchEntry> = Vec::new();
    let n = rest.len();
    let mut k: usize = 0;
    while k < n
        invariant
            n == orig.len(),
            k <= n,
            rest@ == orig.subrange(k as int, n as int),
            out@.to_multiset() == orig.subrange(0, k as int).to_multiset(),
            sorted_by_name(out@),
        decreases n - k,
    {
        let x = rest.remove(0);
        let mut p: usize = 0;
        let mut searching = true;
        while searching && p < out.len()
            invariant
                p <= out.len(),
                forall|q: int| 0 <= q < p ==> name_le(#[trigger] out@[q], x),
                !searching ==> p < out.len() && !name_le(out@[p as int], x),
            decreases out.len() - p + if searching { 1int } else { 0int },
        {
            if names_in_order(&out[p], &x) {
                p = p + 1;
            } else {
                searching = false;
            }
        }
        let ghost before = out@;
        proof {
            if p < before.len() {
                lemma_le_total(name_bytes(before[p as int]), name_bytes(x), 0);
            }
            assert forall|i: int, j: int|
                0 <= i < j < before.len() + 1 implies name_le(
                #[trigger] before.insert(p as int, x)[i],
                #[trigger] before.insert(p as int, x)[j],
            ) by {
                let s = before.insert(p as int, x);
                if i == p && j > p {
                    if j - 1 > p {
                        assert(name_le(before[p as int], before[j - 1]));
                        lemma_le_trans(
                            name_bytes(x),
                            name_bytes(before[p as int]),
                            name_bytes(before[j - 1]),
                            0,
                        );
                    }
                } else if i < p && j > p {
                    assert(name_le(before[i], before[j - 1]));
                } else if i > p {
                    assert(name_le(before[i - 1], before[j - 1]));
                }
            }
            assert(orig.subrange(0, k + 1) =~= orig.subrange(0, k as int).push(x));
            assert(rest@ =~= orig.subrange(k + 1, n as int));
        }
        out.insert(p, x);
        k = k + 1;
    }
    assert(orig.subrange(0, n as int) =~= orig);
    out
}


/// Entry `i` of `s` was written no earlier than the first entry: both times
/// are known and the later one is no smaller.
pub open spec fn is_fresh(s: Seq<ScratchEntry>, i: int) -> bool {
    &&& s[0].modified is Some
    &&& s[i].modified is Some
    &&& s[i].modified->Some_0 >= s[0].modified->Some_0
}

/// `r` holds the paths of the longest prefix of `s` whose entries are fresh.
pub open spec fn is_fresh_prefix(s: Seq<ScratchEntry>, r: Seq<Seq<char>>) -> bool {
    &&& r.len() <= s.len()
    &&& forall|i: int| 0 <= i < r.len() ==> is_fresh(s, i) && #[trigger] r[i] == s[i].path@
    &&& r.len() < s.len() ==> !is_fresh(s, r.len() as int)
}

/// The message of the failure to read the time of the first page.
pub open spec fn unknown_time_message() -> Seq<char> {
    "modification time of the first page is unknown"@
}

/// The views of a list of strings.
pub open spec fn views(v: Seq<String>) -> Seq<Seq<char>> {
    v.map_values(|p: String| p@)
}

/// What collecting from the sorted pages `s` gives: nothing where the time
/// of the first page is unknown, else the paths of its fresh prefix.
pub open spec fn collected_from(s: Seq<ScratchEntry>, r: Option<Seq<Seq<char>>>) -> bool {
    match r {
        None => s.len() > 0 && s[0].modified is None,
        Some(p) => (s.len() == 0 || s[0].modified is Some) && is_fresh_prefix(s, p),
    }
}

/// `r` is what collecting the pages among `entries` gives: the pages put in
/// name order, then cut as `collected_from` says.
pub open spec fn is_collection(entries: Seq<ScratchEntry>, r: Option<Seq<Seq<char>>>) -> bool {
    exists|s: Seq<ScratchEntry>|
        #[trigger] s.to_multiset() == pages(entries).to_multiset() && sorted_by_name(s)
            && collected_from(s, r)
}

/// The views of an optional list of strings.
pub open spec fn opt_views(r: Option<Vec<String>>) -> Option<Seq<Seq<char>>> {
    match r {
        Some(v) => Some(views(v@)),
        None => None,
    }
}

/// The paths of the entries, from the first on, that were written no earlier
/// than the first one; it stops at the first older one, or at the first whose
/// time is unknown. Where the time of the first entry itself is unknown there
/// is no epoch to compare with, and it gives `None`.
pub fn fresh_prefix(sorted: &Vec<ScratchEntry>) -> (r: Option<Vec<String>>)
    ensures
        collected_from(sorted@, opt_views(r)),
{
    let mut out: Vec<String> = Vec::new();
    if sorted.len() == 0 {
        proof {
            lemma_views(out@);
        }
        return Some(out);
    }
    let epoch = match sorted[0].modified {
        Some(t) => t,
        None => {
            return None;
        },
    };
    let mut i: usize = 0;
    while i < sorted.len()
        invariant
            i <= sorted.len(),
            sorted.len() > 0,
            sorted@[0].modified == Some(epoch),
            out.len() == i,
            forall|j: int| 0 <= j < i ==> #[trigger] is_fresh(sorted@, j),
            forall|j: int| 0 <= j < i ==> #[trigger] out@[j]@ == sorted@[j].path@,
        decreases sorted.len() - i,
    {
        let fresh = match sorted[i].modified {
            Some(t) => t >= epoch,
            None => false,
        };
        if !fresh {
            proof {
                lemma_views(out@);
            }
            return Some(out);
        }
        let p = sorted[i].path.clone();
        let ghost prev = out@;
        out.push(p);
        assert forall|j: int| 0 <= j < i + 1 implies #[trigger] out@[j]@ == sorted@[j].path@ by {
            if j < i {
                assert(out@[j] == prev[j]);
                assert(prev[j]@ == sorted@[j].path@);
            }
        }
        i = i + 1;
    }
    proof {
        lemma_views(out@);
    }
    Some(out)
}

proof fn lemma_views(v: Seq<String>)
    ensures
        views(v).len() == v.len(),
        forall|j: int| 0 <= j < v.len() ==> #[trigger] views(v)[j] == v[j]@,
{
}

/// Minimum time between the starts of two compile cycles, in milliseconds.
pub const RENDER_INTERVAL: u64 = 5000;

/// The file name template, after the scratch directory, that makes the
/// compiler write one numbered file per page.
pub open spec fn preview_template() -> Seq<char> {
    "/preview{0p}.svg"@
}

/// The outcome of one request to render.
pub enum RenderResult {
    /// The request came too soon after the last one; nothing was done.
    Debounce,
    /// The paths of the rendered pages, in page order.
    Success(Vec<String>),
    /// The compile cycle failed.
    Error(TypstError),
}

/// How one run of the compiler process ended, as the operating system
/// reported it.
pub enum ProcessOutcome {
    /// The process could not be started; `not_found` where its program was
    /// not found. `kind` names the operating-system error.
    SpawnFailed { not_found: bool, kind: String },
    /// Writing the source text to it, or waiting for it, failed.
    IoFailed { kind: String },
    /// It exited, with success or not, after writing `stderr`.
    Exited { success: bool, stderr: String },
}

/// What one run of the compiler comes to: a missing program means the
/// compiler is not installed, a failing exit is a compilation error carrying
/// its diagnostics, and any other operating-system error is reported by kind.
pub fn compile_result(outcome: ProcessOutcome) -> (r: Result<(), TypstError>)
    ensures
        match outcome {
            ProcessOutcome::SpawnFailed { not_found, kind } => if not_found {
                r == Err::<(), TypstError>(TypstError::TypstNotInstalled)
            } else {
                r == Err::<(), TypstError>(TypstError::FilesystemError(kind))
            },
            ProcessOutcome::IoFailed { kind } => r == Err::<(), TypstError>(
                TypstError::FilesystemError(kind),
            ),
            ProcessOutcome::Exited { success, stderr } => if success {
                r == Ok::<(), TypstError>(())
            } else {
                r == Err::<(), TypstError>(TypstError::CompilationError { message: stderr })
            },
        },
{
    match outcome {
        ProcessOutcome::SpawnFailed { not_found, kind } => {
            if not_found {
                Err(TypstError::TypstNotInstalled)
            } else {
                Err(TypstError::FilesystemError(kind))
            }
        },
        ProcessOutcome::IoFailed { kind } => Err(TypstError::FilesystemError(kind)),
        ProcessOutcome::Exited { success, stderr } => {
            if success {
                Ok(())
            } else {
                Err(TypstError::CompilationError { message: stderr })
            }
        },
    }
}

/// The compiler's side of rendering: where it writes pages, and when it may
/// next be started.
pub struct TypstContext {
    pub preview_path: String,
    pub next_render: u64,
}

impl TypstContext {
    /// A context writing into `scratch_dir`, free to render from `now` on.
    pub fn new(scratch_dir: &str, now: u64) -> (r: TypstContext)
        ensures
            r.preview_path@ == scratch_dir@ + preview_template(),
            r.next_render == now,
    {
        let mut preview_path = scratch_dir.to_owned();
        preview_path.append("/preview{0p}.svg");
        TypstContext { preview_path, next_render: now }
    }

    /// Decides whether a compile cycle starts at `now`. It does where the last
    /// one started at least `RENDER_INTERVAL` before; the next one may then
    /// start `RENDER_INTERVAL` after `now`. A refused request moves nothing.
    pub fn start_render(&mut self, now: u64) -> (started: bool)
        requires
            now <= u64::MAX - RENDER_INTERVAL,
        ensures
            started == (old(self).next_render <= now),
            final(self).preview_path == old(self).preview_path,
            final(self).next_render == if started {
                (now + RENDER_INTERVAL) as u64
            } else {
                old(self).next_render
            },
    {
        if now < self.next_render {
            return false;
        }
        self.next_render = now + RENDER_INTERVAL;
        true
    }

    /// Decides on a start at each of `times` in turn and counts the starts;
    /// the run is the one `run_requests` describes, with a file open. With
    /// times that never go back, at most the time from the first to the
    /// last divided by the interval, plus one, start.
    pub fn start_renders(&mut self, times: &Vec<u64>) -> (started: usize)
        requires
            forall|i: int| 0 <= i < times.len() ==> #[trigger] times[i] <= u64::MAX - RENDER_INTERVAL,
        ensures
            (started as nat, final(self).next_render as int) == run_requests(
                true,
                old(self).next_render as int,
                as_ints(times@),
            ),
            final(self).preview_path == old(self).preview_path,
            times.len() >= 1 && non_decreasing(as_ints(times@)) ==> started <= (times[times.len() - 1]
                - times[0]) / (RENDER_INTERVAL as int) + 1,
    {
        let ghost next0 = self.next_render as int;
        let ghost path = self.preview_path;
        let mut started: usize = 0;
        let mut k: usize = 0;
        while k < times.len()
            invariant
                k <= times.len(),
                started <= k,
                forall|i: int| 0 <= i < times.len() ==> #[trigger] times[i] <= u64::MAX - RENDER_INTERVAL,
                (started as nat, self.next_render as int) == run_requests(
                    true,
                    next0,
                    as_ints(times@.subrange(0, k as int)),
                ),
                self.preview_path == path,
            decreases times.len() - k,
        {
            proof {
                lemma_as_ints_step(times@, k as int);
            }
            if self.start_render(times[k]) {
                started = started + 1;
            }
            k = k + 1;
        }
        proof {
            assert(times@.subrange(0, times.len() as int) =~= times@);
            if times.len() >= 1 && non_decreasing(as_ints(times@)) {
                lemma_debounce_bound(true, next0, as_ints(times@));
            }
        }
        started
    }

    /// The rendered pages among the entries of the scratch directory: the
    /// svg files sorted by name, cut before the first one older than the
    /// first page (or of unknown age), so that pages left over from an
    /// earlier compile are dropped. Where the age of the first page itself is
    /// unknown the collection fails with `None`, so that the caller can keep
    /// what it shows.
    pub fn get_preview_files(&self, entries: Vec<ScratchEntry>) -> (r: Option<Vec<String>>)
        ensures
            is_collection(entries@, opt_views(r)),
    {
        let page_files = select_pages(entries);
        let sorted = sort_by_name(page_files);
        let r = fresh_prefix(&sorted);
        assert(sorted@.to_multiset() == pages(entries@).to_multiset());
        r
    }

    /// What a compile cycle that was started comes to, from the compiler's
    /// outcome and the listing of the scratch directory made after it.
    pub fn finish_render(
        &self,
        compiled: Result<(), TypstError>,
        listing: Result<Vec<ScratchEntry>, TypstError>,
    ) -> (r: RenderResult)
        ensures
            match compiled {
                Err(e) => r == RenderResult::Error(e),
                Ok(_) => match listing {
                    Err(e) => r == RenderResult::Error(e),
                    Ok(entries) => match r {
                        RenderResult::Success(files) => is_collection(entries@, Some(views(files@))),
                        RenderResult::Error(TypstError::FilesystemError(m)) => is_collection(
                            entries@,
                            None,
                        ) && m@ == unknown_time_message(),
                        _ => false,
                    },
                },
            },
    {
        match compiled {
            Err(e) => RenderResult::Error(e),
            Ok(_) => match listing {
                Err(e) => RenderResult::Error(e),
                Ok(entries) => match self.get_preview_files(entries) {
                    Some(files) => RenderResult::Success(files),
                    None => {
                        proof {
                            reveal_strlit("modification time of the first page is unknown");
                        }
                        RenderResult::Error(
                            TypstError::FilesystemError(
                                "modification time of the first page is unknown".to_owned(),
                            ),
                        )
                    },
                },
            },
        }
    }
}

/// Collecting from entries whose page names are all different has one
/// outcome: the result of `get_preview_files` is determined by the entries.
pub proof fn lemma_collection_unique(
    entries: Seq<ScratchEntry>,
    r1: Option<Seq<Seq<char>>>,
    r2: Option<Seq<Seq<char>>>,
)
    requires
        names_unique(pages(entries).to_multiset()),
        is_collection(entries, r1),
        is_collection(entries, r2),
    ensures
        r1 == r2,
{
    let s1 = choose|s: Seq<ScratchEntry>|
        #[trigger] s.to_multiset() == pages(entries).to_multiset() && sorted_by_name(s)
            && collected_from(s, r1);
    let s2 = choose|s: Seq<ScratchEntry>|
        #[trigger] s.to_multiset() == pages(entries).to_multiset() && sorted_by_name(s)
            && collected_from(s, r2);
    lemma_name_order_unique(s1, s2);
    match (r1, r2) {
        (Some(p1), Some(p2)) => {
            if p1.len() < p2.len() {
                let n = p1.len() as int;
                assert(p2[n] == s2[n].path@);
                assert(is_fresh(s1, n));
            } else if p2.len() < p1.len() {
                let n = p2.len() as int;
                assert(p1[n] == s1[n].path@);
                assert(is_fresh(s1, n));
            }
            assert(p1.len() == p2.len());
            assert forall|i: int| 0 <= i < p1.len() implies p1[i] == p2[i] by {
                assert(p1[i] == s1[i].path@);
                assert(p2[i] == s2[i].path@);
            }
            assert(p1 =~= p2);
        },
        _ => {},
    }
}

} // verus!
