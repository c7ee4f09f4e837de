//! Progress of downloads and transcriptions.

use vstd::prelude::*;

verus! {

/// What is reported while a model is downloaded or pages are transcribed.
#[derive(Debug)]
pub enum OcrProgressEvent {
    /// Work on a page has begun.
    PageStarted { page_index: usize },
    /// A page gave so many characters.
    PageDone { page_index: usize, chars: usize },
    /// A page failed; the others go on.
    PageFailed { page_index: usize, message: String },
    /// All pages are done.
    Done { pages_done: usize, total_chars: usize },
    /// Bytes downloaded so far, of how many, if that is known.
    DownloadProgress { done: u64, total: Option<u64> },
    /// The model is on disk and is being loaded.
    ModelLoading,
    /// The model is ready.
    DownloadDone,
}

/// The smaller of the sum and the largest count.
pub open spec fn capped_sum(a: u64, b: u64) -> u64 {
    if a + b <= u64::MAX {
        (a + b) as u64
    } else {
        u64::MAX
    }
}

fn add_capped(a: u64, b: u64) -> (r: u64)
    ensures
        r == capped_sum(a, b),
        r >= a,
        a + b <= u64::MAX ==> r == a + b,
        a + b > u64::MAX ==> r == u64::MAX,
{
    if b <= u64::MAX - a {
        a + b
    } else {
        u64::MAX
    }
}

/// Bytes over all files of a download.
#[derive(Debug, Clone, Copy, PartialEq, Eq, Structural)]
pub struct DownloadTotals {
    pub total_bytes: u64,
    pub done_bytes: u64,
}

/// What one file has added to the totals.
#[derive(Debug, Clone, Copy, PartialEq, Eq, Structural)]
pub struct FileProgress {
    /// The size that was announced.
    pub total: u64,
    /// How far the download, or its latest attempt, has come.
    pub at: u64,
    /// The furthest that any attempt has come: the bytes that are counted.
    pub done: u64,
}

impl DownloadTotals {
    /// Nothing so far.
    pub fn new() -> (t: Self)
        ensures
            t.total_bytes == 0,
            t.done_bytes == 0,
    {
        DownloadTotals { total_bytes: 0, done_bytes: 0 }
    }

    /// Counts a file that is in the cache already.
    pub fn add_cached(&mut self, size: u64)
        ensures
            final(self).total_bytes == capped_sum(old(self).total_bytes, size),
            final(self).done_bytes == capped_sum(old(self).done_bytes, size),
            old(self).done_bytes <= old(self).total_bytes ==> final(self).done_bytes
                <= final(self).total_bytes,
    {
        self.total_bytes = add_capped(self.total_bytes, size);
        self.done_bytes = add_capped(self.done_bytes, size);
    }

    /// The report of the totals. A total of nothing is not known yet.
    pub fn event(&self) -> (e: OcrProgressEvent)
        ensures
            e == (OcrProgressEvent::DownloadProgress {
                done: self.done_bytes,
                total: if self.total_bytes > 0 {
                    Some(self.total_bytes)
                } else {
                    None
                },
            }),
    {
        OcrProgressEvent::DownloadProgress {
            done: self.done_bytes,
            total: if self.total_bytes > 0 {
                Some(self.total_bytes)
            } else {
                None
            },
        }
    }
}

impl FileProgress {
    /// Whether no attempt has come further than what is counted, and no more is counted than
    /// there is of the file.
    pub open spec fn wf(&self) -> bool {
        self.at <= self.done <= self.total
    }

    /// Whether there is room in the totals for what the file has yet to add, so that no more
    /// than everything will ever be done.
    pub open spec fn in_step(&self, totals: &DownloadTotals) -> bool {
        capped_sum(totals.done_bytes, (self.total - self.done) as u64) <= totals.total_bytes
    }

    /// A file that has added nothing.
    pub fn new() -> (f: Self)
        ensures
            f.wf(),
            f.total == 0,
            f.at == 0,
            f.done == 0,
            forall|totals: DownloadTotals|
                totals.done_bytes <= totals.total_bytes ==> #[trigger] f.in_step(&totals),
    {
        FileProgress { total: 0, at: 0, done: 0 }
    }

    /// The size of the file is announced. This may happen again, as when a download is
    /// resumed: the size counts once, and the download goes on from the start of the file.
    /// What has been counted of it stays counted.
    pub fn init(&mut self, size: u64, totals: &mut DownloadTotals)
        requires
            old(self).wf(),
        ensures
            final(self).wf(),
            final(self).total == (if size > old(self).total {
                size
            } else {
                old(self).total
            }),
            final(self).at == 0,
            final(self).done == old(self).done,
            final(totals).total_bytes == (if size > old(self).total {
                capped_sum(old(totals).total_bytes, (size - old(self).total) as u64)
            } else {
                old(totals).total_bytes
            }),
            final(totals).done_bytes == old(totals).done_bytes,
            final(totals).total_bytes >= old(totals).total_bytes,
            old(self).in_step(old(totals)) ==> final(self).in_step(final(totals)),
    {
        if size > self.total {
            totals.total_bytes = add_capped(totals.total_bytes, size - self.total);
            self.total = size;
        }
        self.at = 0;
    }

    /// More bytes of the file have arrived. Only what goes beyond the furthest point so far is
    /// counted, and nothing beyond the size of the file. Says whether the totals have changed.
    pub fn update(&mut self, size: u64, totals: &mut DownloadTotals) -> (changed: bool)
        requires
            old(self).wf(),
        ensures
            final(self).wf(),
            final(self).total == old(self).total,
            final(self).at == (if old(self).at + size <= old(self).total {
                (old(self).at + size) as u64
            } else {
                old(self).total
            }),
            final(self).done == (if final(self).at > old(self).done {
                final(self).at
            } else {
                old(self).done
            }),
            changed == (final(self).done != old(self).done),
            final(totals).total_bytes == old(totals).total_bytes,
            final(totals).done_bytes == capped_sum(
                old(totals).done_bytes,
                (final(self).done - old(self).done) as u64,
            ),
            final(totals).done_bytes >= old(totals).done_bytes,
            old(self).in_step(old(totals)) ==> final(self).in_step(final(totals)),
    {
        let reached: u64 = add_capped(self.at, size);
        self.at = if reached < self.total {
            reached
        } else {
            self.total
        };
        if self.at <= self.done {
            return false;
        }
        totals.done_bytes = add_capped(totals.done_bytes, self.at - self.done);
        self.done = self.at;
        true
    }

    /// The file is complete: whatever was not counted is counted now. Says whether the totals
    /// have changed.
    pub fn finish(&mut self, totals: &mut DownloadTotals) -> (changed: bool)
        requires
            old(self).wf(),
        ensures
            final(self).wf(),
            final(self).total == old(self).total,
            final(self).at == old(self).total,
            final(self).done == old(self).total,
            changed == (old(self).done < old(self).total),
            final(totals).total_bytes == old(totals).total_bytes,
            final(totals).done_bytes == capped_sum(
                old(totals).done_bytes,
                (old(self).total - old(self).done) as u64,
            ),
            final(totals).done_bytes >= old(totals).done_bytes,
            old(self).in_step(old(totals)) ==> final(self).in_step(final(totals)),
    {
        self.at = self.total;
        if self.done < self.total {
            let rest: u64 = self.total - self.done;
            self.done = self.total;
            totals.done_bytes = add_capped(totals.done_bytes, rest);
            true
        } else {
            false
        }
    }
}

/// No more than everything is ever done, however often a download starts over: every call keeps
/// a file in step with the totals, and while it is in step, no more is done than there is.
pub proof fn never_more_than_everything(file: FileProgress, totals: DownloadTotals)
    requires
        file.wf(),
        file.in_step(&totals),
    ensures
        totals.done_bytes <= totals.total_bytes,
{
}

} // verus!
