use vstd::prelude::*;

use crate::error::TypstError;
use crate::typst::{is_collection, views, ScratchEntry, TypstContext, RENDER_INTERVAL};

verus! {

/// What a request to render comes to.
#[derive(Debug, PartialEq, Eq, Clone, Copy)]
pub enum RenderRequest {
    /// No file is open: there is nothing to render.
    NoOp,
    /// Too soon after the last compile cycle started: nothing is done.
    Debounced,
    /// A compile cycle starts now, on the current text of the open file.
    Start,
}

/// Messages that reach the editor and preview area.
pub enum Message {
    /// The text of the open file was edited.
    Edit,
    /// The file at this path was opened in the editor.
    OpenFile(String),
    /// The preview was asked for.
    OpenPreview,
    /// A compile cycle ended: the compiler's error, or the listing of the
    /// scratch directory made after it succeeded.
    RenderDone(Result<Vec<ScratchEntry>, TypstError>),
}

/// The editor and preview area, and the scheduling of compile cycles for it.
pub struct ContentArea {
    pub open_file: Option<String>,
    pub preview_files: Vec<String>,
    pub next_render: u64,
    pub editor_open: bool,
    pub preview_open: bool,
}

/// A request made at `now` starts a compile cycle: a file is open and the
/// deadline `next` has come.
pub open spec fn starts(has_file: bool, next: int, now: int) -> bool {
    has_file && next <= now
}

/// What a request made at `now` comes to.
pub open spec fn request_outcome(has_file: bool, next: int, now: int) -> RenderRequest {
    if !has_file {
        RenderRequest::NoOp
    } else if now < next {
        RenderRequest::Debounced
    } else {
        RenderRequest::Start
    }
}

/// The deadline after a request made at `now`: pushed to `now` plus the
/// interval by a request that starts a cycle, left alone by any other.
pub open spec fn deadline_after(has_file: bool, next: int, now: int) -> int {
    if starts(has_file, next, now) {
        now + RENDER_INTERVAL
    } else {
        next
    }
}

/// The requests made at `times` in turn, from the deadline `next`: how many
/// of them start a compile cycle, and the deadline after the last one.
pub open spec fn run_requests(has_file: bool, next: int, times: Seq<int>) -> (nat, int)
    decreases times.len(),
{
    if times.len() == 0 {
        (0, next)
    } else {
        let (count, deadline) = run_requests(has_file, next, times.drop_last());
        let now = times.last();
        (
            if starts(has_file, deadline, now) { count + 1 } else { count },
            deadline_after(has_file, deadline, now),
        )
    }
}

/// `before` and `after` differ only as one request made at `now` makes them,
/// and `r` is what that request came to.
pub open spec fn requested(before: ContentArea, after: ContentArea, now: u64, r: RenderRequest) -> bool {
    let has_file = before.open_file is Some;
    &&& r == request_outcome(has_file, before.next_render as int, now as int)
    &&& after.next_render == deadline_after(has_file, before.next_render as int, now as int)
    &&& after.open_file == before.open_file
    &&& after.preview_files == before.preview_files
    &&& after.editor_open == before.editor_open
    &&& after.preview_open == before.preview_open
}

/// The times of a run of requests, as integers.
pub open spec fn as_ints(times: Seq<u64>) -> Seq<int> {
    times.map_values(|t: u64| t as int)
}

/// The times never go back.
pub open spec fn non_decreasing(times: Seq<int>) -> bool {
    forall|i: int, j: int| 0 <= i <= j < times.len() ==> times[i] <= times[j]
}

pub(crate) proof fn lemma_as_ints_step(times: Seq<u64>, k: int)
    requires
        0 <= k < times.len(),
    ensures
        as_ints(times.subrange(0, k + 1)).drop_last() == as_ints(times.subrange(0, k)),
        as_ints(times.subrange(0, k + 1)).last() == times[k] as int,
        as_ints(times.subrange(0, k + 1)).len() == k + 1,
{
    assert(as_ints(times.subrange(0, k + 1)).drop_last() =~= as_ints(times.subrange(0, k)));
}

impl ContentArea {
    /// An area with no file open and an empty preview, free to render from
    /// `now` on.
    pub fn new(now: u64) -> (r: ContentArea)
        ensures
            r.open_file is None,
            r.preview_files@.len() == 0,
            r.next_render == now,
            !r.editor_open,
            r.preview_open,
    {
        ContentArea {
            open_file: None,
            preview_files: Vec::new(),
            next_render: now,
            editor_open: false,
            preview_open: true,
        }
    }

    /// One request to render, made at `now`. With no file open it does
    /// nothing. Before the deadline it is refused and the deadline stays
    /// where it is, so that a stream of edits cannot put it off for ever.
    /// Otherwise a compile cycle starts and the deadline moves to `now` plus
    /// the interval.
    pub fn request_render(&mut self, now: u64) -> (r: RenderRequest)
        requires
            now <= u64::MAX - RENDER_INTERVAL,
        ensures
            requested(*old(self), *final(self), now, r),
    {
        if self.open_file.is_none() {
            return RenderRequest::NoOp;
        }
        if now < self.next_render {
            return RenderRequest::Debounced;
        }
        self.next_render = now + RENDER_INTERVAL;
        RenderRequest::Start
    }

    /// Makes one request to render at each of `times` in turn and counts
    /// those that started a compile cycle; the run is the one `run_requests`
    /// describes. With times that never go back, at most the time from the
    /// first to the last divided by the interval, plus one, start a cycle;
    /// with no file open, none does.
    pub fn request_renders(&mut self, times: &Vec<u64>) -> (started: usize)
        requires
            forall|i: int| 0 <= i < times.len() ==> #[trigger] times[i] <= u64::MAX - RENDER_INTERVAL,
        ensures
            (started as nat, final(self).next_render as int) == run_requests(
                old(self).open_file is Some,
                old(self).next_render as int,
                as_ints(times@),
            ),
            final(self).open_file == old(self).open_file,
            final(self).preview_files == old(self).preview_files,
            final(self).editor_open == old(self).editor_open,
            final(self).preview_open == old(self).preview_open,
            times.len() >= 1 && non_decreasing(as_ints(times@)) ==> started <= (times[times.len() - 1]
                - times[0]) / (RENDER_INTERVAL as int) + 1,
            old(self).open_file is None ==> started == 0 && final(self).next_render == old(self).next_render,
    {
        let ghost has_file = self.open_file is Some;
        let ghost next0 = self.next_render as int;
        let ghost start = *self;
        let mut started: usize = 0;
        let mut k: usize = 0;
        while k < times.len()
            invariant
                k <= times.len(),
                started <= k,
                forall|i: int| 0 <= i < times.len() ==> #[trigger] times[i] <= u64::MAX - RENDER_INTERVAL,
                has_file == (self.open_file is Some),
                (started as nat, self.next_render as int) == run_requests(
                    has_file,
                    next0,
                    as_ints(times@.subrange(0, k as int)),
                ),
                self.open_file == start.open_file,
                self.preview_files == start.preview_files,
                self.editor_open == start.editor_open,
                self.preview_open == start.preview_open,
            decreases times.len() - k,
        {
            proof {
                lemma_as_ints_step(times@, k as int);
            }
            let r = self.request_render(times[k]);
            if let RenderRequest::Start = r {
                started = started + 1;
            }
            k = k + 1;
        }
        proof {
            assert(times@.subrange(0, times.len() as int) =~= times@);
            let ts = as_ints(times@);
            if times.len() >= 1 && non_decreasing(ts) {
                lemma_debounce_bound(has_file, next0, ts);
            }
            if !has_file {
                lemma_no_file_never_starts(next0, ts);
            }
        }
        started
    }

    /// Applies one message received at `now`. Edits, opening a file and
    /// asking for the preview each request a render. A finished cycle
    /// replaces the preview by the pages it produced; a failed one, or one
    /// whose pages cannot be collected, leaves the preview as it was.
    pub fn update(&mut self, message: Message, typst: &TypstContext, now: u64) -> (r: RenderRequest)
        requires
            now <= u64::MAX - RENDER_INTERVAL,
        ensures
            match message {
                Message::Edit => requested(*old(self), *final(self), now, r),
                Message::OpenFile(path) => requested(
                    ContentArea { open_file: Some(path), editor_open: true, ..*old(self) },
                    *final(self),
                    now,
                    r,
                ),
                Message::OpenPreview => requested(
                    ContentArea { preview_open: true, ..*old(self) },
                    *final(self),
                    now,
                    r,
                ),
                Message::RenderDone(Err(_)) => r == RenderRequest::NoOp && *final(self) == *old(self),
                Message::RenderDone(Ok(entries)) => {
                    &&& r == RenderRequest::NoOp
                    &&& is_collection(entries@, Some(views(final(self).preview_files@))) || (
                    is_collection(entries@, None) && final(self).preview_files == old(self).preview_files)
                    &&& final(self).open_file == old(self).open_file
                    &&& final(self).next_render == old(self).next_render
                    &&& final(self).editor_open == old(self).editor_open
                    &&& final(self).preview_open == old(self).preview_open
                },
            },
    {
        match message {
            Message::Edit => self.request_render(now),
            Message::OpenFile(path) => {
                self.open_file = Some(path);
                self.editor_open = true;
                self.request_render(now)
            },
            Message::OpenPreview => {
                self.preview_open = true;
                self.request_render(now)
            },
            Message::RenderDone(result) => {
                match result {
                    Err(_) => {},
                    Ok(entries) => {
                        match typst.get_preview_files(entries) {
                            Some(files) => {
                                self.preview_files = files;
                            },
                            None => {},
                        }
                    },
                }
                RenderRequest::NoOp
            },
        }
    }
}

proof fn lemma_run_window(has_file: bool, next: int, times: Seq<int>)
    requires
        times.len() >= 1,
        forall|i: int, j: int| 0 <= i <= j < times.len() ==> times[i] <= times[j],
    ensures
        ({
            let (count, deadline) = run_requests(has_file, next, times);
            count == 0 || (times[0] + RENDER_INTERVAL * (count - 1) <= deadline - RENDER_INTERVAL
                && deadline - RENDER_INTERVAL <= times.last())
        }),
    decreases times.len(),
{
    let prefix = times.drop_last();
    let (count, deadline) = run_requests(has_file, next, prefix);
    assert(times[0] <= times.last());
    if prefix.len() >= 1 {
        lemma_run_window(has_file, next, prefix);
        assert(prefix[0] == times[0]);
        assert(prefix.last() <= times.last());
        if count > 0 {
            assert(times[0] + RENDER_INTERVAL * (count - 1) <= deadline - RENDER_INTERVAL);
            assert(times[0] + RENDER_INTERVAL * count <= deadline);
        }
    } else {
        assert(count == 0);
    }
}

/// However the requests are timed, as long as their times never go back,
/// the number of compile cycles they start is at most the time from the
/// first request to the last divided by the interval, rounded down, plus one.
pub proof fn lemma_debounce_bound(has_file: bool, next: int, times: Seq<int>)
    requires
        times.len() >= 1,
        forall|i: int, j: int| 0 <= i <= j < times.len() ==> times[i] <= times[j],
    ensures
        run_requests(has_file, next, times).0 <= (times.last() - times[0]) / (RENDER_INTERVAL as int)
            + 1,
{
    lemma_run_window(has_file, next, times);
    let count = run_requests(has_file, next, times).0;
    let span = times.last() - times[0];
    if count > 0 {
        assert(RENDER_INTERVAL * (count - 1) <= span);
        let k = RENDER_INTERVAL as int;
        assert((count - 1) <= span / k) by (nonlinear_arith)
            requires
                k * (count - 1) <= span,
                k > 0,
                count >= 1,
        ;
    }
}

/// With no file open, no request ever starts a compile cycle, however timed,
/// and the deadline never moves.
pub proof fn lemma_no_file_never_starts(next: int, times: Seq<int>)
    ensures
        run_requests(false, next, times) == (0nat, next),
    decreases times.len(),
{
    if times.len() > 0 {
        lemma_no_file_never_starts(next, times.drop_last());
    }
}

} // verus!
