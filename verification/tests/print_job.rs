use pdf_printer::print_job::{completion_status, run_total, PrintJob, Step};

#[derive(Debug, PartialEq)]
enum Event {
    Render(u32),
    Cancelled(u32, u32),
    Finished(u32, u32),
}

/// Drives a job; `render_ok`/`print_ok` decide the outcome of each attempt in order,
/// `cancel_at` gives the value of each read of the cancel flag, in order.
fn drive(pages: Vec<u32>, copies: u32, render_ok: &[bool], print_ok: &[bool], cancel_at: &[bool]) -> Vec<Event> {
    let mut job = PrintJob::new(pages, copies);
    let mut events = Vec::new();
    let (mut r, mut p, mut c) = (0, 0, 0);
    let mut read_flag = || {
        let v = cancel_at.get(c).copied().unwrap_or(false);
        c += 1;
        v
    };
    loop {
        match job.begin_page(read_flag()) {
            Step::Finished { done, failed } => {
                events.push(Event::Finished(done, failed));
                break;
            }
            Step::Cancelled { done, total } => {
                events.push(Event::Cancelled(done, total));
                break;
            }
            Step::Render { page } => {
                events.push(Event::Render(page));
                let ok = render_ok.get(r).copied().unwrap_or(true);
                r += 1;
                if !ok {
                    job.render_failed();
                } else {
                    job.render_succeeded();
                    let ok = print_ok.get(p).copied().unwrap_or(true);
                    p += 1;
                    job.printed(ok);
                }
                while job.awaits_check() {
                    job.check_cancel(read_flag());
                }
            }
        }
    }
    events
}

#[test]
fn prints_every_page_of_every_copy_in_order() {
    let ev = drive(vec![4, 2], 2, &[], &[], &[]);
    assert_eq!(
        ev,
        vec![Event::Render(4), Event::Render(2), Event::Render(4), Event::Render(2), Event::Finished(4, 0)]
    );
}

#[test]
fn failed_pages_do_not_stop_the_run() {
    let ev = drive(vec![0, 1, 2], 1, &[true, false, true], &[false, true], &[]);
    assert_eq!(
        ev,
        vec![Event::Render(0), Event::Render(1), Event::Render(2), Event::Finished(3, 2)]
    );
}

#[test]
fn cancel_before_first_page() {
    let ev = drive(vec![0, 1], 3, &[], &[], &[true]);
    assert_eq!(ev, vec![Event::Cancelled(0, 6)]);
}

#[test]
fn cancel_seen_after_a_page_ends_normally() {
    // reads: before page 0 (false), after page 0 (true)
    let ev = drive(vec![0, 1, 2], 1, &[], &[], &[false, true]);
    assert_eq!(ev, vec![Event::Render(0), Event::Finished(1, 0)]);
}

#[test]
fn cancel_seen_before_a_page_after_a_render_failure() {
    // a failed render skips the check after the page: the next read is before page 1
    let ev = drive(vec![0, 1, 2], 1, &[false], &[], &[false, true]);
    assert_eq!(ev, vec![Event::Render(0), Event::Cancelled(1, 3)]);
}

#[test]
fn cancel_seen_at_end_of_a_copy() {
    // reads: before p0, after p0, after copy
    let ev = drive(vec![7], 2, &[], &[], &[false, false, true]);
    assert_eq!(ev, vec![Event::Render(7), Event::Finished(1, 0)]);
}

#[test]
fn empty_page_list_finishes_at_once() {
    assert_eq!(drive(vec![], 5, &[], &[], &[]), vec![Event::Finished(0, 0)]);
    assert_eq!(drive(vec![1, 2], 0, &[], &[], &[]), vec![Event::Finished(0, 0)]);
}

#[test]
fn over_jobs_stay_over() {
    let mut job = PrintJob::new(vec![3], 1);
    assert!(matches!(job.begin_page(true), Step::Cancelled { done: 0, total: 1 }));
    assert!(matches!(job.begin_page(false), Step::Cancelled { done: 0, total: 1 }));
}

#[test]
fn counts_and_eta_flag() {
    let mut job = PrintJob::new(vec![0, 1], 1);
    assert_eq!(job.total(), 2);
    assert!(matches!(job.begin_page(false), Step::Render { page: 0 }));
    job.render_succeeded();
    assert!(job.printed(true));
    assert_eq!(job.done(), 1);
    job.check_cancel(false);
    assert!(matches!(job.begin_page(false), Step::Render { page: 1 }));
    job.render_succeeded();
    assert!(!job.printed(false));
    assert_eq!(job.done(), 2);
    assert_eq!(job.failed(), 1);
}

#[test]
fn status_text() {
    assert_eq!(completion_status(0), "完成");
    assert_eq!(completion_status(2), "部分失败");
}

#[test]
fn each_page_is_printed_once_per_copy() {
    let pages = vec![7, 3, 5];
    let ev = drive(pages.clone(), 3, &[], &[], &[]);
    assert_eq!(ev.last(), Some(&Event::Finished(9, 0)));
    for p in pages {
        assert_eq!(ev.iter().filter(|e| **e == Event::Render(p)).count(), 3);
    }
}

#[test]
fn copy_end_moves_to_the_next_copy() {
    let mut job = PrintJob::new(vec![1], 2);
    assert!(matches!(job.begin_page(false), Step::Render { page: 1 }));
    job.render_succeeded();
    assert!(job.printed(true));
    // After the last printed page of a copy the flag is read twice: after the page and after the copy.
    assert!(job.awaits_check());
    job.check_cancel(false);
    assert!(job.awaits_check());
    job.check_cancel(false);
    assert!(!job.awaits_check());
    assert!(matches!(job.begin_page(false), Step::Render { page: 1 }));
    // A page that fails to render goes straight to the check after the copy.
    job.render_failed();
    assert!(job.awaits_check());
    job.check_cancel(false);
    assert!(matches!(job.begin_page(false), Step::Finished { done: 2, failed: 1 }));
}

#[test]
fn run_total_of_pages_and_copies() {
    assert_eq!(run_total(5, 3), Some(15));
    assert_eq!(run_total(0, 99), Some(0));
    assert_eq!(run_total(7, 0), Some(0));
    assert_eq!(run_total(u32::MAX as usize, 1), Some(u32::MAX));
    assert_eq!(run_total(0x1_0000, 0x1_0000), None);
    assert_eq!(run_total(u32::MAX as usize, 2), None);
}
