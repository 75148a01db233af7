use ndownloader::parser::Fraction;
use ndownloader::queue::{DownloadQueue, DownloadStatus, DownloadTask, TaskOutcome};

fn value(f: Option<Fraction>) -> Option<f64> {
    f.map(|f| f.numer as f64 / f.denom as f64)
}

fn submit(q: &mut DownloadQueue, id: &str) {
    q.add_download(
        id.to_string(),
        format!("https://example.com/watch?v={}", id),
        format!("Video {}", id),
        format!("/tmp/videos/{}.mp4", id),
    );
}

fn task<'a>(tasks: &'a [DownloadTask], id: &str) -> &'a DownloadTask {
    tasks.iter().find(|t| t.video_id == id).unwrap()
}

#[test]
fn test_parse_progress() {
    let line = "[download]  45.2% of 100.00MiB at 2.5MiB/s ETA 05:30";
    let (progress, speed, eta) = DownloadQueue::parse_download_line(line);

    assert!(progress.is_some());
    assert!((value(progress).unwrap() - 0.452).abs() < 0.001);
    assert_eq!(speed, Some("2.5MiB/s".to_string()));
    assert_eq!(eta, Some("05:30".to_string()));
}

#[test]
fn test_parse_progress_no_speed() {
    let line = "[download]  75.0% of 100.00MiB";
    let (progress, speed, eta) = DownloadQueue::parse_download_line(line);

    assert_eq!(value(progress), Some(0.75));
    assert_eq!(speed, None);
    assert_eq!(eta, None);
}

#[test]
fn test_parse_non_download_line() {
    let line = "[info] Downloading video...";
    let (progress, speed, eta) = DownloadQueue::parse_download_line(line);

    assert_eq!(progress, None);
    assert_eq!(speed, None);
    assert_eq!(eta, None);
}

#[test]
fn parse_gives_exact_fraction() {
    let (progress, _, _) = DownloadQueue::parse_download_line("[download]  45.2% of 100.00MiB");
    assert_eq!(progress, Some(Fraction { numer: 452_000_000, denom: 1_000_000_000 }));
    let (progress, _, _) = DownloadQueue::parse_download_line("[download] 100% of 10MiB");
    assert_eq!(progress, Some(Fraction { numer: 1_000_000_000, denom: 1_000_000_000 }));
    let (progress, _, _) = DownloadQueue::parse_download_line("[download] .5% of 10MiB");
    assert_eq!(progress, Some(Fraction { numer: 5_000_000, denom: 1_000_000_000 }));
    let (progress, _, _) = DownloadQueue::parse_download_line("[download] 5.% of 10MiB");
    assert_eq!(progress, Some(Fraction { numer: 50_000_000, denom: 1_000_000_000 }));
}

#[test]
fn parse_finished_line_keeps_rate() {
    let line = "[download] 100% of 10.00MiB in 00:00:05 at 2.00MiB/s";
    let (progress, speed, eta) = DownloadQueue::parse_download_line(line);
    assert_eq!(value(progress), Some(1.0));
    assert_eq!(speed, Some("2.00MiB/s".to_string()));
    assert_eq!(eta, None);
}

#[test]
fn parse_line_without_percent_says_nothing() {
    let line = "[download] Destination: /tmp/a at b.mp4";
    assert_eq!(DownloadQueue::parse_download_line(line), (None, None, None));
}

#[test]
fn parse_bad_percentage_is_skipped() {
    let line = "[download] abc% of 10MiB at 1MiB/s ETA 00:10";
    let (progress, speed, eta) = DownloadQueue::parse_download_line(line);
    assert_eq!(progress, None);
    assert_eq!(speed, Some("1MiB/s".to_string()));
    assert_eq!(eta, Some("00:10".to_string()));
    let (progress, _, _) = DownloadQueue::parse_download_line("[download] 1.2.3% of 10MiB");
    assert_eq!(progress, None);
    let (progress, _, _) = DownloadQueue::parse_download_line("[download] % of 10MiB");
    assert_eq!(progress, None);
}

#[test]
fn parse_takes_last_percentage_and_trailing_signs() {
    let line = "[download] 10% then 20%% of 10MiB";
    let (progress, _, _) = DownloadQueue::parse_download_line(line);
    assert_eq!(value(progress), Some(0.2));
}

#[test]
fn parse_key_at_end_gives_nothing() {
    let line = "[download] 5.0% of 10MiB at";
    let (progress, speed, eta) = DownloadQueue::parse_download_line(line);
    assert_eq!(value(progress), Some(0.05));
    assert_eq!(speed, None);
    assert_eq!(eta, None);
}

#[test]
fn parse_splits_on_unicode_white_space() {
    let line = "[download]\u{a0}30.0%\tof 1MiB at\u{2003}4KiB/s ETA 01:00";
    let (progress, speed, eta) = DownloadQueue::parse_download_line(line);
    assert_eq!(value(progress), Some(0.3));
    assert_eq!(speed, Some("4KiB/s".to_string()));
    assert_eq!(eta, Some("01:00".to_string()));
}

#[test]
fn parse_long_number_is_rounded_down() {
    let line = "[download] 1.000000000000000000001% of 1MiB";
    let (progress, _, _) = DownloadQueue::parse_download_line(line);
    assert_eq!(progress, Some(Fraction { numer: 10_000_000, denom: 1_000_000_000 }));
    let line = "[download] 33.3333333333333333333333% of 1MiB";
    let (progress, _, _) = DownloadQueue::parse_download_line(line);
    assert_eq!(progress, Some(Fraction { numer: 333_333_333, denom: 1_000_000_000 }));
}

#[test]
fn parse_accepts_plus_sign_and_exponent() {
    let (progress, _, _) = DownloadQueue::parse_download_line("[download] +50% of 1MiB");
    assert_eq!(value(progress), Some(0.5));
    let (progress, _, _) = DownloadQueue::parse_download_line("[download] 5e1% of 1MiB");
    assert_eq!(value(progress), Some(0.5));
    let (progress, _, _) = DownloadQueue::parse_download_line("[download] 5E-1% of 1MiB");
    assert_eq!(value(progress), Some(0.005));
    let (progress, _, _) = DownloadQueue::parse_download_line("[download] 2.5e+1% of 1MiB");
    assert_eq!(value(progress), Some(0.25));
    let (progress, _, _) = DownloadQueue::parse_download_line("[download] 1e-99999999999999999999999% of 1MiB");
    assert_eq!(progress, Some(Fraction { numer: 0, denom: 1_000_000_000 }));
}

#[test]
fn parse_huge_number_saturates() {
    let (progress, _, _) = DownloadQueue::parse_download_line("[download] 1e400% of 1MiB");
    assert_eq!(progress, Some(Fraction { numer: u64::MAX, denom: 1_000_000_000 }));
    let (progress, _, _) = DownloadQueue::parse_download_line("[download] 0e99999999999999999999999% of 1MiB");
    assert_eq!(progress, Some(Fraction { numer: 0, denom: 1_000_000_000 }));
}

#[test]
fn parse_rejects_malformed_numbers() {
    for word in ["1e%", "e5%", "+%", "++5%", "1e+%", "5e1.0%", "..5%"] {
        let line = format!("[download] {} of 1MiB", word);
        let (progress, _, _) = DownloadQueue::parse_download_line(&line);
        assert_eq!(progress, None, "{}", word);
    }
}

#[test]
fn new_queue_is_empty() {
    let q = DownloadQueue::new();
    assert_eq!(q.len(), 0);
    assert!(q.get_tasks().is_empty());
}

#[test]
fn submission_is_queued_with_no_progress() {
    let mut q = DownloadQueue::new();
    submit(&mut q, "v1");
    let tasks = q.get_tasks();
    assert_eq!(tasks.len(), 1);
    let t = &tasks[0];
    assert_eq!(t.video_id, "v1");
    assert_eq!(t.video_url, "https://example.com/watch?v=v1");
    assert_eq!(t.title, "Video v1");
    assert_eq!(t.output_path, "/tmp/videos/v1.mp4");
    assert_eq!(t.status, DownloadStatus::Queued);
    assert_eq!(t.progress, Fraction { numer: 0, denom: 1 });
    assert_eq!(t.speed, None);
    assert_eq!(t.eta, None);
}

#[test]
fn tasks_start_in_submission_order_one_at_a_time() {
    let mut q = DownloadQueue::new();
    submit(&mut q, "a");
    submit(&mut q, "b");
    submit(&mut q, "c");
    let first = q.start_next().unwrap();
    assert_eq!(first.video_id, "a");
    assert_eq!(first.status, DownloadStatus::Downloading);
    assert!(q.start_next().is_none());
    let downloading = q
        .get_tasks()
        .iter()
        .filter(|t| t.status == DownloadStatus::Downloading)
        .count();
    assert_eq!(downloading, 1);
    q.finish(TaskOutcome::Succeeded);
    assert_eq!(q.start_next().unwrap().video_id, "b");
    q.finish(TaskOutcome::Succeeded);
    assert_eq!(q.start_next().unwrap().video_id, "c");
    q.finish(TaskOutcome::Succeeded);
    assert!(q.start_next().is_none());
}

#[test]
fn statuses_only_move_forward() {
    let mut q = DownloadQueue::new();
    submit(&mut q, "a");
    let mut seen = vec![q.get_tasks()[0].status.clone()];
    q.start_next();
    seen.push(q.get_tasks()[0].status.clone());
    q.record_line("[download]  10.0% of 1MiB");
    seen.push(q.get_tasks()[0].status.clone());
    q.finish(TaskOutcome::Succeeded);
    seen.push(q.get_tasks()[0].status.clone());
    q.finish(TaskOutcome::Failed("late".to_string()));
    q.record_line("[download]  20.0% of 1MiB");
    seen.push(q.get_tasks()[0].status.clone());
    assert_eq!(
        seen,
        vec![
            DownloadStatus::Queued,
            DownloadStatus::Downloading,
            DownloadStatus::Downloading,
            DownloadStatus::Completed,
            DownloadStatus::Completed,
        ]
    );
    assert_eq!(q.get_tasks()[0].progress, Fraction { numer: 1, denom: 1 });
}

#[test]
fn progress_follows_readings_and_completes_whole() {
    let mut q = DownloadQueue::new();
    submit(&mut q, "a");
    q.start_next();
    let mut last = 0.0;
    for line in [
        "[download]   0.5% of 1MiB at 1MiB/s ETA 00:10",
        "[download] Destination: file.mp4",
        "[download]  40.0% of 1MiB at 1MiB/s ETA 00:06",
        "[download]  99.9% of 1MiB at 1MiB/s ETA 00:00",
    ] {
        q.record_line(line);
        let p = value(Some(q.get_tasks()[0].progress)).unwrap();
        assert!(p >= last);
        last = p;
    }
    assert_eq!(last, 0.999);
    q.finish(TaskOutcome::Succeeded);
    let t = &q.get_tasks()[0];
    assert_eq!(t.status, DownloadStatus::Completed);
    assert_eq!(value(Some(t.progress)), Some(1.0));
}

#[test]
fn rate_and_time_left_are_kept_when_a_line_lacks_them() {
    let mut q = DownloadQueue::new();
    submit(&mut q, "a");
    q.start_next();
    q.record_line("[download]  45.2% of 100.00MiB at 2.5MiB/s ETA 05:30");
    q.record_line("[download]  75.0% of 100.00MiB");
    let t = &q.get_tasks()[0];
    assert_eq!(value(Some(t.progress)), Some(0.75));
    assert_eq!(t.speed, Some("2.5MiB/s".to_string()));
    assert_eq!(t.eta, Some("05:30".to_string()));
    q.record_line("[download]  80.0% of 100.00MiB at 3.0MiB/s");
    let t = &q.get_tasks()[0];
    assert_eq!(t.speed, Some("3.0MiB/s".to_string()));
    assert_eq!(t.eta, Some("05:30".to_string()));
}

#[test]
fn failed_task_then_successful_task() {
    let mut q = DownloadQueue::new();
    submit(&mut q, "a1");
    assert_eq!(q.start_next().unwrap().video_id, "a1");
    q.finish(TaskOutcome::Failed("network error".to_string()));
    assert_eq!(
        task(&q.get_tasks(), "a1").status,
        DownloadStatus::Failed("network error".to_string())
    );
    submit(&mut q, "b1");
    assert_eq!(task(&q.get_tasks(), "b1").status, DownloadStatus::Queued);
    assert_eq!(q.start_next().unwrap().video_id, "b1");
    q.record_line("[download]  50.0% of 1MiB");
    q.finish(TaskOutcome::Succeeded);
    let tasks = q.get_tasks();
    assert_eq!(tasks.len(), 2);
    let a = task(&tasks, "a1");
    let b = task(&tasks, "b1");
    assert_eq!(a.status, DownloadStatus::Failed("network error".to_string()));
    assert_eq!(b.status, DownloadStatus::Completed);
    assert_eq!(value(Some(b.progress)), Some(1.0));
}

#[test]
fn failure_reason_is_trimmed_error_text() {
    let mut q = DownloadQueue::new();
    submit(&mut q, "a");
    submit(&mut q, "b");
    q.start_next();
    q.finish(TaskOutcome::Failed("  ERROR: network error\n".to_string()));
    q.start_next();
    q.finish(TaskOutcome::Failed(" \n".to_string()));
    let tasks = q.get_tasks();
    assert_eq!(tasks[0].status, DownloadStatus::Failed("ERROR: network error".to_string()));
    assert_eq!(
        tasks[1].status,
        DownloadStatus::Failed("the download tool failed".to_string())
    );
}

#[test]
fn same_id_gives_separate_records() {
    let mut q = DownloadQueue::new();
    submit(&mut q, "dup");
    submit(&mut q, "dup");
    q.start_next();
    q.finish(TaskOutcome::Succeeded);
    q.start_next();
    q.record_line("[download]  20.0% of 1MiB");
    let tasks = q.get_tasks();
    assert_eq!(tasks.len(), 2);
    assert_eq!(tasks[0].status, DownloadStatus::Completed);
    assert_eq!(value(Some(tasks[0].progress)), Some(1.0));
    assert_eq!(tasks[1].status, DownloadStatus::Downloading);
    assert_eq!(value(Some(tasks[1].progress)), Some(0.2));
}

#[test]
fn lines_and_endings_without_a_running_task_change_nothing() {
    let mut q = DownloadQueue::new();
    submit(&mut q, "a");
    q.record_line("[download]  20.0% of 1MiB at 1MiB/s");
    q.finish(TaskOutcome::Succeeded);
    let t = &q.get_tasks()[0];
    assert_eq!(t.status, DownloadStatus::Queued);
    assert_eq!(t.progress, Fraction { numer: 0, denom: 1 });
    assert_eq!(t.speed, None);
}

#[test]
fn progress_does_not_go_down_on_a_second_stream() {
    let mut q = DownloadQueue::new();
    submit(&mut q, "a");
    q.start_next();
    q.record_line("[download]  50.0% of 80MiB at 2MiB/s ETA 00:20");
    q.record_line("[download]  10.0% of 5MiB at 1MiB/s ETA 00:04");
    let t = &q.get_tasks()[0];
    assert_eq!(value(Some(t.progress)), Some(0.5));
    assert_eq!(t.speed, Some("1MiB/s".to_string()));
    assert_eq!(t.eta, Some("00:04".to_string()));
    q.record_line("[download]  60.0% of 5MiB");
    assert_eq!(value(Some(q.get_tasks()[0].progress)), Some(0.6));
}

#[test]
fn progress_is_capped_at_the_whole() {
    let mut q = DownloadQueue::new();
    submit(&mut q, "a");
    q.start_next();
    q.record_line("[download] 150% of 1MiB");
    assert_eq!(q.get_tasks()[0].progress, Fraction { numer: 1, denom: 1 });
}
