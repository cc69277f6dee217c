use sim_runner::error::SimError;
use sim_runner::run::binary_path;
use sim_runner::run::data_dir;
use sim_runner::run::fresnel_binary;
use sim_runner::run::fresnel_dir;
use sim_runner::run::has_parquet_extension;
use sim_runner::run::join_path;
use sim_runner::run::launch_command;
use sim_runner::run::new_files;
use sim_runner::run::shutdown_error;
use sim_runner::run::shutdown_poll;
use sim_runner::run::ShutdownPoll;
use sim_runner::run::SHUTDOWN_GRACE_NS;
use sim_runner::tags::summarize_run;
use sim_runner::tags::TagSpan;

#[test]
fn join_path_follows_path_join() {
    for (base, rel) in [("/home/u", "fresnel"), ("/home/u/", "fresnel"), ("", "x"), ("a", "/abs"), ("/", "data")] {
        let want = std::path::Path::new(base).join(rel);
        assert_eq!(join_path(base, rel), want.to_str().unwrap());
    }
}

#[test]
fn fresnel_paths() {
    assert_eq!(fresnel_dir("/home/ann"), "/home/ann/fresnel");
    assert_eq!(data_dir("/home/ann/fresnel"), "/home/ann/fresnel/data");
    assert_eq!(binary_path("/home/ann/fresnel"), "/home/ann/fresnel/target/release/fresnel");
}

#[test]
fn fresnel_binary_found_or_not() {
    assert_eq!(fresnel_binary("/f", true).unwrap(), "/f/target/release/fresnel");
    match fresnel_binary("/f", false) {
        Err(e) => {
            assert_eq!(
                e.message(),
                "/f/target/release/fresnel not found; build fresnel with cargo build --release first"
            );
        }
        Ok(_) => panic!("expected an error"),
    }
}

#[test]
fn launch_pinned_and_plain() {
    let extra = vec!["--arm1=15".to_string(), "--arm2=15".to_string()];
    let c = launch_command("/b/fresnel", &extra, Some("0,1"));
    assert_eq!(c.program, "taskset");
    assert_eq!(c.args, vec!["-c", "0,1", "/b/fresnel", "--arm1=15", "--arm2=15"]);
    let c = launch_command("/b/fresnel", &extra, None);
    assert_eq!(c.program, "/b/fresnel");
    assert_eq!(c.args, extra);
    let c = launch_command("/b/fresnel", &Vec::new(), None);
    assert!(c.args.is_empty());
}

#[test]
fn shutdown_polling() {
    assert_eq!(shutdown_poll(true, u128::MAX), ShutdownPoll::Exited);
    assert_eq!(shutdown_poll(false, 0), ShutdownPoll::Wait);
    assert_eq!(shutdown_poll(false, SHUTDOWN_GRACE_NS), ShutdownPoll::Wait);
    assert_eq!(shutdown_poll(false, SHUTDOWN_GRACE_NS + 1), ShutdownPoll::TimedOut);
    assert!(shutdown_error(ShutdownPoll::Wait).is_none());
    assert_eq!(
        shutdown_error(ShutdownPoll::TimedOut).unwrap().message(),
        "fresnel did not exit within 10s of SIGINT; the parquet file would be truncated"
    );
}

#[test]
fn parquet_extension_follows_path_extension() {
    for name in ["run.parquet", ".parquet", "..parquet", "a.b.parquet", "parquet", "x.parquet.tmp", "x.PARQUET", "x.parquetx", "..", "x.", ""] {
        let want = std::path::Path::new(name).extension().is_some_and(|e| e == "parquet");
        assert_eq!(has_parquet_extension(name.as_bytes()), want, "name {name:?}");
    }
}

#[test]
fn new_files_keeps_only_created_ones() {
    let b = |s: &str| s.as_bytes().to_vec();
    let before = vec![b("d/a.parquet"), b("d/b.parquet")];
    let after = vec![b("d/c.parquet"), b("d/a.parquet"), b("d/e.parquet"), b("d/b.parquet")];
    assert_eq!(new_files(&before, &after), vec![b("d/c.parquet"), b("d/e.parquet")]);
    assert!(new_files(&after, &before).is_empty());
    assert_eq!(new_files(&Vec::new(), &after), after);
}

#[test]
fn tag_spans_accumulate() {
    let mut s = TagSpan::empty();
    assert_eq!(s, TagSpan { count: 0, first: u64::MAX, last: 0 });
    s.add_tags(&[50, 20, 90]);
    s.add_tags(&[]);
    s.add_tags(&[30]);
    assert_eq!(s, TagSpan { count: 4, first: 20, last: 90 });
    assert_eq!(s.span_ps(), 70);
    let mut t = TagSpan::empty();
    t.add_tags(&[5, 100]);
    s.merge(&t);
    assert_eq!(s, TagSpan { count: 6, first: 5, last: 100 });
}

#[test]
fn summarize_run_outcomes() {
    let span = |c, f, l| TagSpan { count: c, first: f, last: l };
    match summarize_run("/d", &Vec::new()) {
        Err(e) => assert_eq!(e.message(), "run produced no parquet file in /d"),
        Ok(_) => panic!("expected an error"),
    }
    match summarize_run("/d", &vec![Some(span(3, 1, 5)), None, Some(span(1, 2, 2)), None]) {
        Err(SimError::ScanFailed { file_index }) => assert_eq!(file_index, 3),
        other => panic!("unexpected {other:?}"),
    }
    match summarize_run("/d", &vec![Some(span(0, u64::MAX, 0))]) {
        Err(e) => assert_eq!(e.message(), "run produced a parquet file with zero time tags"),
        Ok(_) => panic!("expected an error"),
    }
    let total = summarize_run("/d", &vec![Some(span(3, 10, 50)), Some(span(0, u64::MAX, 0)), Some(span(2, 5, 40))]).unwrap();
    assert_eq!(total, span(5, 5, 50));
}

#[test]
fn error_messages() {
    assert_eq!(SimError::TelemetryEnded.message(), "fresnel exited before emitting enough telemetry lines");
    assert_eq!(SimError::NoTimeTags.message(), "run produced a parquet file with zero time tags");
}

#[test]
fn merging_spans_equals_spanning_all_tags() {
    let a = [40u64, 7, 19];
    let b = [3u64, 80];
    let mut sa = TagSpan::empty();
    sa.add_tags(&a);
    let mut sb = TagSpan::empty();
    sb.add_tags(&b);
    sa.merge(&sb);
    let mut all = TagSpan::empty();
    all.add_tags(&[40, 7, 19, 3, 80]);
    assert_eq!(sa, all);
    let mut e = TagSpan::empty();
    e.merge(&all);
    assert_eq!(e, all);
}
