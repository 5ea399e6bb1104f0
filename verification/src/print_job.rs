//! The decisions of a print run: which page to render next, when the run is
//! cancelled or finished, and the counts of handled and failed pages.
//!
//! A run prints `copies` copies of the page list, page by page. For each page
//! the caller renders it, prints it, and reads the cancel flag where the run
//! checks it: before each page, after each printed page, and after each copy.
//! A page that fails to render or to print counts as handled and failed; the
//! run goes on with the next page.
use vstd::prelude::*;

verus! {

/// Where a run stands.
#[derive(PartialEq, Eq, Structural, Clone, Copy)]
pub enum JobStage {
    /// Before a page: the cancel flag is read next.
    Ready,
    /// A page is being rendered.
    Rendering,
    /// A rendered page is being printed.
    Printing,
    /// A page is done; the cancel flag is read next.
    Checking,
    /// A copy is done; the cancel flag is read next.
    CopyEnd,
    /// The run ended normally (all pages handled, or a cancel seen after a page).
    Finished,
    /// The run was cancelled before a page.
    Cancelled,
}

/// What the caller does next.
pub enum Step {
    /// Render (then print) the page with this 0-based index.
    Render { page: u32 },
    /// The run was cancelled: report `done` of `total` pages.
    Cancelled { done: u32, total: u32 },
    /// The run is over: `done` pages handled, `failed` of them failed.
    Finished { done: u32, failed: u32 },
}

/// The state of a run, as mathematical values.
pub struct JobView {
    pub pages: Seq<u32>,
    pub copies: nat,
    /// The copy being printed (0-based).
    pub copy: nat,
    /// The position in the page list within the current copy.
    pub index: nat,
    /// Pages handled so far.
    pub done: nat,
    /// Pages that failed to render or to print.
    pub failed: nat,
    pub stage: JobStage,
}

impl JobView {
    /// The number of pages of the whole run.
    pub open spec fn total(self) -> nat {
        self.copies * self.pages.len()
    }

    /// Number of page slots before the current one.
    pub open spec fn position(self) -> nat {
        self.copy * self.pages.len() + self.index
    }

    /// The consistency of a run's state.
    pub open spec fn wf(self) -> bool {
        &&& self.total() <= u32::MAX
        &&& self.failed <= self.done <= self.total()
        &&& self.copy <= self.copies
        &&& match self.stage {
            JobStage::Ready => {
                &&& self.done == self.position()
                &&& (self.copy < self.copies && self.index < self.pages.len()) || (self.copy
                    == self.copies && self.index == 0)
            },
            JobStage::Rendering | JobStage::Printing => {
                &&& self.done == self.position()
                &&& self.copy < self.copies && self.index < self.pages.len()
            },
            JobStage::Checking => {
                &&& self.done == self.position() + 1
                &&& self.copy < self.copies && self.index < self.pages.len()
            },
            JobStage::CopyEnd => {
                &&& self.done == self.position()
                &&& self.copy < self.copies && self.index == self.pages.len() && self.index > 0
            },
            JobStage::Finished | JobStage::Cancelled => true,
        }
    }

    /// The run is over and takes no more steps.
    pub open spec fn is_over(self) -> bool {
        self.stage == JobStage::Finished || self.stage == JobStage::Cancelled
    }

    /// The cancel flag is to be read next, after a page or after a copy.
    pub open spec fn awaits_check(self) -> bool {
        self.stage == JobStage::Checking || self.stage == JobStage::CopyEnd
    }
}

/// A print run over a list of pages.
pub struct PrintJob {
    pages: Vec<u32>,
    copies: u32,
    copy: u32,
    index: usize,
    done: u32,
    failed: u32,
    stage: JobStage,
}

impl View for PrintJob {
    type V = JobView;

    closed spec fn view(&self) -> JobView {
        JobView {
            pages: self.pages@,
            copies: self.copies as nat,
            copy: self.copy as nat,
            index: self.index as nat,
            done: self.done as nat,
            failed: self.failed as nat,
            stage: self.stage,
        }
    }
}

/// In a state where the run is at a page slot, the handled count gives the
/// slot's place in the page list: slot `done` prints `pages[done % len]`.
pub proof fn lemma_slot_page(v: JobView)
    requires
        v.wf(),
        v.stage == JobStage::Rendering || v.stage == JobStage::Printing || (v.stage
            == JobStage::Ready && v.copy < v.copies),
    ensures
        v.pages.len() > 0,
        v.done % v.pages.len() == v.index,
{
    let n = v.pages.len() as int;
    vstd::arithmetic::div_mod::lemma_fundamental_div_mod_converse(
        v.done as int,
        n,
        v.copy as int,
        v.index as int,
    );
}

/// Every consistent state has `failed <= done <= total`.
pub proof fn lemma_counts_bounded(v: JobView)
    requires
        v.wf(),
    ensures
        v.failed <= v.done <= v.total(),
{
}

proof fn lemma_position_bound(copy: nat, copies: nat, len: nat, index: nat)
    requires
        copy < copies,
        index <= len,
    ensures
        copy * len + index <= copies * len,
        copy * len + len <= copies * len,
{
    assert(copy * len + len <= copies * len) by (nonlinear_arith)
        requires
            copy < copies,
    ;
}

impl PrintJob {
    /// Sets up a run of `copies` copies of `pages`.
    pub fn new(pages: Vec<u32>, copies: u32) -> (job: PrintJob)
        requires
            pages.len() * copies <= u32::MAX,
        ensures
            job@.wf(),
            job@.pages == pages@,
            job@.copies == copies,
            job@.done == 0,
            job@.failed == 0,
            job@.stage == JobStage::Ready,
            job@.total() == pages.len() * copies,
    {
        proof {
            assert(copies * pages.len() == pages.len() * copies) by (nonlinear_arith);
        }
        let len = pages.len();
        let copy = if len == 0 { copies } else { 0 };
        proof {
            if len == 0 {
                assert(copy * len + 0 == 0) by (nonlinear_arith)
                    requires
                        len == 0,
                ;
            }
            assert(copies * len >= 0) by (nonlinear_arith);
            if copies > 0 {
                assert(len <= copies * len) by (nonlinear_arith)
                    requires
                        copies > 0,
                ;
            }
        }
        PrintJob { pages, copies, copy, index: 0, done: 0, failed: 0, stage: JobStage::Ready }
    }

    /// Pages handled so far.
    pub fn done(&self) -> (r: u32)
        ensures
            r == self@.done,
    {
        self.done
    }

    /// Pages that failed so far.
    pub fn failed(&self) -> (r: u32)
        ensures
            r == self@.failed,
    {
        self.failed
    }

    /// The number of pages of the whole run: pages times copies.
    pub fn total(&self) -> (r: u32)
        requires
            self@.wf(),
        ensures
            r == self@.total(),
    {
        if self.copies == 0 {
            proof {
                assert(self@.copies * self@.pages.len() == 0) by (nonlinear_arith)
                    requires
                        self@.copies == 0,
                ;
            }
            0
        } else {
            proof {
                assert(self.pages.len() <= self.copies * self.pages.len()) by (nonlinear_arith)
                    requires
                        self.copies > 0,
                ;
                assert(self.copies * self.pages.len() == self.pages.len() * self.copies)
                    by (nonlinear_arith);
            }
            (self.pages.len() as u32) * self.copies
        }
    }

    /// Whether the cancel flag is to be read next (see `check_cancel`).
    pub fn awaits_check(&self) -> (r: bool)
        ensures
            r == self@.awaits_check(),
    {
        match self.stage {
            JobStage::Checking | JobStage::CopyEnd => true,
            _ => false,
        }
    }

    /// Before a page: ends the run if no page is left, cancels it if
    /// `cancelled` (the cancel flag read now), or names the page to render.
    /// A run that is over stays over and reports the same end again.
    pub fn begin_page(&mut self, cancelled: bool) -> (step: Step)
        requires
            old(self)@.wf(),
            old(self)@.stage == JobStage::Ready || old(self)@.is_over(),
        ensures
            final(self)@.wf(),
            final(self)@.pages == old(self)@.pages,
            final(self)@.copies == old(self)@.copies,
            final(self)@.done == old(self)@.done,
            final(self)@.failed == old(self)@.failed,
            old(self)@.stage == JobStage::Finished ==> final(self)@ == old(self)@,
            old(self)@.stage == JobStage::Cancelled ==> final(self)@ == old(self)@,
            match step {
                Step::Finished { done, failed } => {
                    &&& final(self)@ == (JobView { stage: JobStage::Finished, ..old(self)@ })
                    &&& done == final(self)@.done && failed == final(self)@.failed
                    &&& old(self)@.stage == JobStage::Ready ==> old(self)@.copy == old(self)@.copies
                        && done == old(self)@.total()
                },
                Step::Cancelled { done, total } => {
                    &&& final(self)@ == (JobView { stage: JobStage::Cancelled, ..old(self)@ })
                    &&& done == final(self)@.done && total == final(self)@.total()
                    &&& old(self)@.stage == JobStage::Ready ==> cancelled && old(self)@.copy
                        < old(self)@.copies
                },
                Step::Render { page } => {
                    &&& old(self)@.stage == JobStage::Ready
                    &&& old(self)@.copy < old(self)@.copies
                    &&& !cancelled
                    &&& final(self)@ == (JobView { stage: JobStage::Rendering, ..old(self)@ })
                    &&& page == old(self)@.pages[(old(self)@.done % old(self)@.pages.len()) as int]
                },
            },
    {
        match self.stage {
            JobStage::Finished => {
                return Step::Finished { done: self.done, failed: self.failed };
            },
            JobStage::Cancelled => {
                let total = self.total();
                return Step::Cancelled { done: self.done, total };
            },
            _ => {},
        }
        if self.copy >= self.copies {
            self.stage = JobStage::Finished;
            proof {
                assert(self.copy * self.pages.len() + 0 == self.copies * self.pages.len());
            }
            return Step::Finished { done: self.done, failed: self.failed };
        }
        if cancelled {
            let total = self.total();
            self.stage = JobStage::Cancelled;
            return Step::Cancelled { done: self.done, total };
        }
        proof {
            lemma_slot_page(self@);
        }
        self.stage = JobStage::Rendering;
        Step::Render { page: self.pages[self.index] }
    }

    /// Moves past the current page slot: to the next page of the copy, or to
    /// the check after the copy.
    fn advance(&mut self)
        requires
            old(self)@.copy < old(self)@.copies,
            old(self)@.index < old(self)@.pages.len(),
            old(self).pages.len() == old(self)@.pages.len(),
        ensures
            final(self)@ == (JobView {
                index: old(self)@.index + 1,
                stage: if old(self)@.index + 1 == old(self)@.pages.len() {
                    JobStage::CopyEnd
                } else {
                    JobStage::Ready
                },
                ..old(self)@
            }),
    {
        self.index = self.index + 1;
        if self.index == self.pages.len() {
            self.stage = JobStage::CopyEnd;
        } else {
            self.stage = JobStage::Ready;
        }
    }

    /// The current page failed to render: it counts as handled and failed,
    /// and the run goes on with the next page.
    pub fn render_failed(&mut self)
        requires
            old(self)@.wf(),
            old(self)@.stage == JobStage::Rendering,
        ensures
            final(self)@.wf(),
            final(self)@ == (JobView {
                done: old(self)@.done + 1,
                failed: old(self)@.failed + 1,
                index: old(self)@.index + 1,
                stage: if old(self)@.index + 1 == old(self)@.pages.len() {
                    JobStage::CopyEnd
                } else {
                    JobStage::Ready
                },
                ..old(self)@
            }),
    {
        proof {
            lemma_position_bound(self@.copy, self@.copies, self@.pages.len(), self@.index + 1);
        }
        self.done = self.done + 1;
        self.failed = self.failed + 1;
        self.advance();
    }

    /// The current page rendered; it is printed next.
    pub fn render_succeeded(&mut self)
        requires
            old(self)@.wf(),
            old(self)@.stage == JobStage::Rendering,
        ensures
            final(self)@ == (JobView { stage: JobStage::Printing, ..old(self)@ }),
            final(self)@.wf(),
    {
        self.stage = JobStage::Printing;
    }

    /// The current page was printed (`ok`) or failed to print: it counts as
    /// handled, and as failed if `!ok`. Returns whether pages remain after it,
    /// for which a time estimate is shown.
    pub fn printed(&mut self, ok: bool) -> (more: bool)
        requires
            old(self)@.wf(),
            old(self)@.stage == JobStage::Printing,
        ensures
            final(self)@ == (JobView {
                done: old(self)@.done + 1,
                failed: if ok { old(self)@.failed } else { old(self)@.failed + 1 },
                stage: JobStage::Checking,
                ..old(self)@
            }),
            final(self)@.wf(),
            more == (final(self)@.done > 0 && final(self)@.done < final(self)@.total()),
    {
        proof {
            lemma_position_bound(self@.copy, self@.copies, self@.pages.len(), self@.index + 1);
        }
        if !ok {
            self.failed = self.failed + 1;
        }
        self.done = self.done + 1;
        self.stage = JobStage::Checking;
        let total = self.total();
        self.done > 0 && self.done < total
    }

    /// Reads the cancel flag after a page or after a copy: a cancel ends the
    /// run normally; otherwise the run moves to the next page or copy.
    pub fn check_cancel(&mut self, cancelled: bool)
        requires
            old(self)@.wf(),
            old(self)@.awaits_check(),
        ensures
            final(self)@.wf(),
            cancelled ==> final(self)@ == (JobView { stage: JobStage::Finished, ..old(self)@ }),
            !cancelled && old(self)@.stage == JobStage::Checking ==> final(self)@ == (JobView {
                index: old(self)@.index + 1,
                stage: if old(self)@.index + 1 == old(self)@.pages.len() {
                    JobStage::CopyEnd
                } else {
                    JobStage::Ready
                },
                ..old(self)@
            }),
            !cancelled && old(self)@.stage == JobStage::CopyEnd ==> final(self)@ == (JobView {
                copy: old(self)@.copy + 1,
                index: 0,
                stage: JobStage::Ready,
                ..old(self)@
            }),
    {
        if cancelled {
            self.stage = JobStage::Finished;
            return;
        }
        match self.stage {
            JobStage::Checking => {
                self.advance();
            },
            _ => {
                proof {
                    assert((self@.copy + 1) * self@.pages.len() == self@.copy * self@.pages.len()
                        + self@.pages.len()) by (nonlinear_arith);
                }
                self.copy = self.copy + 1;
                self.index = 0;
                self.stage = JobStage::Ready;
            },
        }
    }
}

/// The number of pages of a run of `copies` copies of `pages_len` pages, or
/// `None` where it does not fit in a `u32`.
pub fn run_total(pages_len: usize, copies: u32) -> (r: Option<u32>)
    ensures
        r matches Some(t) ==> t == pages_len * copies,
        r is None <==> pages_len * copies > u32::MAX,
{
    if copies == 0 {
        proof {
            assert(pages_len * copies == 0) by (nonlinear_arith)
                requires
                    copies == 0,
            ;
        }
        return Some(0);
    }
    if pages_len > 0xffff_ffff {
        proof {
            assert(pages_len * copies >= pages_len) by (nonlinear_arith)
                requires
                    copies >= 1,
            ;
        }
        return None;
    }
    let n = pages_len as u32;
    match n.checked_mul(copies) {
        Some(t) => Some(t),
        None => None,
    }
}

/// The page slot of position `i` in copy `j` of a list of `len` pages.
pub open spec fn copy_slot(j: nat, len: nat, i: nat) -> nat {
    j * len + i
}

/// Each page of the list is printed once in every copy: among the
/// `copies * len` page slots of a run (slot `k` prints `pages[k % len]`),
/// those that print position `i` are exactly `j * len + i` for `j < copies`.
pub proof fn lemma_each_page_copies(len: nat, copies: nat, i: nat, k: nat)
    requires
        i < len,
        k < copies * len,
    ensures
        k % len == i <==> exists|j: nat| j < copies && k == #[trigger] copy_slot(j, len, i),
{
    if k % len == i {
        let j = k / len;
        vstd::arithmetic::div_mod::lemma_fundamental_div_mod(k as int, len as int);
        assert(j < copies) by (nonlinear_arith)
            requires
                k == len * j + i,
                k < copies * len,
                i >= 0,
        ;
        assert(k == j * len + i) by (nonlinear_arith)
            requires
                k == len * j + i,
        ;
        assert(k == copy_slot(j, len, i));
    }
    if exists|j: nat| j < copies && k == #[trigger] copy_slot(j, len, i) {
        let j = choose|j: nat| j < copies && k == #[trigger] copy_slot(j, len, i);
        vstd::arithmetic::div_mod::lemma_fundamental_div_mod_converse(
            k as int,
            len as int,
            j as int,
            i as int,
        );
    }
}

/// The status recorded for a run that ended normally: `部分失败` (partly
/// failed) if any page failed, `完成` (done) otherwise.
pub fn completion_status(failed: u32) -> (s: &'static str)
    ensures
        failed > 0 ==> s@ == "部分失败"@,
        failed == 0 ==> s@ == "完成"@,
{
    if failed > 0 { "部分失败" } else { "完成" }
}

} // verus!
