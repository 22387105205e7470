use anr_trace::cursor::LineCursor;
use anr_trace::lock_bean::LockBean;
use anr_trace::log_item_bean::LogItemBean;
use anr_trace::result_item_bean::ResultItemBean;
use anr_trace::trace_analysis::{ResolveOutcome, TraceAnalysis};

fn cursor_of(lines: &[&str]) -> LineCursor {
    let v: Vec<String> = lines.iter().map(|s| s.to_string()).collect();
    LineCursor::new(v)
}

fn chain_trace() -> Vec<&'static str> {
    vec![
        "----- pid 100 at 2024-08-16 10:02:11 -----",
        "Cmd line: com.app",
        "\"main\" prio=5 tid=1 Blocked",
        "  at com.app.MainActivity.work(MainActivity.java:10)",
        "  - waiting to lock <0x1> (a java.lang.Object) held by tid=5",
        "  at android.os.Looper.loop(Looper.java:160)",
        "\"worker\" prio=5 tid=5 Runnable",
        "  at com.app.Worker.run(Worker.java:20)",
        "  - locked <0x1> (a java.lang.Object)",
        "",
    ]
}

#[test]
fn scenario_lock_wait_block() {
    // A block with `waiting to lock <0x1>` and `held by tid=55` and no binder
    // marker classifies as a lock wait.
    let mut cursor = cursor_of(&[
        "----- pid 7 at 2024-08-16 10:02:11 -----",
        "Cmd line: com.app",
        "\"main\" prio=5 tid=1 Blocked",
        "  at com.app.A.b(A.java:1)",
        "  - waiting to lock <0x1> (a java.lang.Object) held by tid=55",
    ]);
    let mut analysis = TraceAnalysis::new();
    let mut bean = LogItemBean::new();
    bean.set_process_name("com.app".to_string());
    bean.set_pid("7".to_string());
    let mut item = ResultItemBean::new();
    let mut out: Vec<String> = Vec::new();
    let code = analysis.analyse_trace(&mut cursor, &mut bean, &mut item, &mut out);
    assert_eq!(code, 2);
}

#[test]
fn scenario_lock_record_contents() {
    // The extractor pulls the object and the holder out of the line, in order
    // and verbatim.
    let analysis = TraceAnalysis::new();
    let mut record = LockBean::new();
    analysis.get_lock_from_line(
        "  - waiting to lock <0x1> (a java.lang.Object) held by tid=55",
        &mut record,
    );
    assert_eq!(record.get_waiting_objects().len(), 1);
    assert_eq!(record.get_waiting_objects()[0], "0x1");
    assert_eq!(record.get_locked_objects().len(), 0);
    assert_eq!(record.get_waiting_threads().len(), 1);
    assert_eq!(record.get_waiting_threads()[0].tid, "tid=55");
    assert!(record.get_waiting_threads()[0].thread_name.is_none());
}

#[test]
fn test_lock_record_order_preserved() {
    let analysis = TraceAnalysis::new();
    let mut record = LockBean::new();
    analysis.get_lock_from_line("  - locked <0xa> (a java.lang.Class)", &mut record);
    analysis.get_lock_from_line("  - locked <0xb> (a java.lang.Class)", &mut record);
    analysis.get_lock_from_line(
        "  - waiting to lock <0xc> held by thread Worker (tid=9)",
        &mut record,
    );
    assert_eq!(*record.get_locked_objects(), vec!["0xa".to_string(), "0xb".to_string()]);
    assert_eq!(*record.get_waiting_objects(), vec!["0xc".to_string()]);
    let threads = record.get_waiting_threads();
    assert_eq!(threads.len(), 1);
    assert_eq!(threads[0].tid, "tid=Worker");
    assert_eq!(threads[0].thread_name.as_deref(), Some("tid=9"));
    record.clear();
    assert_eq!(record.get_locked_objects().len(), 0);
    assert_eq!(record.get_waiting_objects().len(), 0);
    assert_eq!(record.get_waiting_threads().len(), 0);
}

#[test]
fn test_chain_resolution_end_to_end() {
    let mut cursor = cursor_of(&chain_trace());
    let mut analysis = TraceAnalysis::new();
    let mut bean = LogItemBean::new();
    bean.set_process_name("com.app".to_string());
    bean.set_pid("100".to_string());
    let mut item = ResultItemBean::new();
    item.set_process_name("com.app".to_string());
    let mut out: Vec<String> = Vec::new();
    let code = analysis.analyse_trace(&mut cursor, &mut bean, &mut item, &mut out);
    assert_eq!(code, 2);
    // The owner thread's block made it into the reconstruction.
    assert!(out.iter().any(|l| l.contains("com.app.Worker.run")));
    // The captured frames stop once the process names itself.
    assert_eq!(item.get_trace_list().len(), 1);
    assert!(item.get_trace_list()[0].contains("com.app.MainActivity.work"));
    // The whole reconstruction, in order: the deduplicated headers, the main
    // block, then the buffered owner block ending at the held lock.
    let expected: Vec<String> = vec![
        "----- pid 100 at 2024-08-16 10:02:11 -----",
        "Cmd line: com.app",
        "\"main\" prio=5 tid=1 Blocked",
        "  at com.app.MainActivity.work(MainActivity.java:10)",
        "  - waiting to lock <0x1> (a java.lang.Object) held by tid=5",
        "  at android.os.Looper.loop(Looper.java:160)",
        "----- pid 100 at 2024-08-16 10:02:11 -----",
        "Cmd line: com.app",
        "\"worker\" prio=5 tid=5 Runnable",
        "at com.app.Worker.run(Worker.java:20)",
        "- locked <0x1> (a java.lang.Object)",
    ].into_iter().map(|s| s.to_string()).collect();
    assert_eq!(out, expected);
}

#[test]
fn test_resolution_idempotent() {
    // Resolving the same target against the same lines twice captures the
    // same frames.
    let mut first: Option<Vec<String>> = None;
    for _ in 0..2 {
        let mut cursor = cursor_of(&chain_trace());
        let mut analysis = TraceAnalysis::new();
        let mut bean = LogItemBean::new();
        bean.set_process_name("com.app".to_string());
        bean.set_pid("100".to_string());
        bean.set_time("2024-08-16 10:02:11".to_string());
        let mut item = ResultItemBean::new();
        item.set_process_name("com.app".to_string());
        let mut out: Vec<String> = Vec::new();
        analysis.analyse_trace(&mut cursor, &mut bean, &mut item, &mut out);
        match &first {
            None => first = Some(item.get_trace_list().clone()),
            Some(prev) => assert_eq!(prev, item.get_trace_list()),
        }
    }
}

#[test]
fn test_header_time_derived() {
    // The tracker stores the literal between ` at ` and the trailing dashes.
    let mut cursor = cursor_of(&chain_trace());
    let mut analysis = TraceAnalysis::new();
    let mut bean = LogItemBean::new();
    bean.set_process_name("com.app".to_string());
    bean.set_pid("100".to_string());
    let mut item = ResultItemBean::new();
    let mut out: Vec<String> = Vec::new();
    analysis.analyse_trace(&mut cursor, &mut bean, &mut item, &mut out);
    assert_eq!(bean.get_time(), Some("2024-08-16 10:02:11"));
}

#[test]
fn scenario_binder_call() {
    // A stub-proxy call in the main block hands resolution to the block that
    // serves it: the one naming the method, `<interface>.onTransact`, and the
    // Binder dispatch entry.
    let mut cursor = cursor_of(&[
        "----- pid 100 at 2024-08-16 10:02:11 -----",
        "Cmd line: com.app",
        "\"main\" prio=5 tid=1 Native",
        "  at Foo$Stub$Proxy.bar(Foo.java:10)",
        "\"binder_1\" prio=5 tid=9 Runnable",
        "  at com.svc.Impl.bar(Impl.java:4)",
        "  at Foo.onTransact(Foo.java:77)",
        "  at android.os.Binder.execTransact(Binder.java:994)",
        "  - locked <0x9> (a java.lang.Object)",
    ]);
    let mut analysis = TraceAnalysis::new();
    let mut bean = LogItemBean::new();
    bean.set_process_name("com.app".to_string());
    bean.set_pid("100".to_string());
    let mut item = ResultItemBean::new();
    let mut out: Vec<String> = Vec::new();
    let code = analysis.analyse_trace(&mut cursor, &mut bean, &mut item, &mut out);
    assert_eq!(code, 1);
    // The serving thread's block was buffered into the reconstruction.
    assert!(out.iter().any(|l| l.contains("com.svc.Impl.bar")));
}

#[test]
fn scenario_unresolved_outside_window() {
    // A target whose approximate time is outside every header's tolerance
    // window stays unresolved, with zero frames captured.
    let mut cursor = cursor_of(&chain_trace());
    let mut analysis = TraceAnalysis::new();
    let mut bean = LogItemBean::new();
    bean.set_process_name("com.app".to_string());
    bean.set_pid("100".to_string());
    bean.set_time("2024-08-16 11:30:00".to_string());
    let mut item = ResultItemBean::new();
    item.set_process_name("com.app".to_string());
    let mut out: Vec<String> = Vec::new();
    let code = analysis.analyse_trace(&mut cursor, &mut bean, &mut item, &mut out);
    assert_eq!(code, -1);
    assert_eq!(item.get_trace_list().len(), 0);
    assert!(out.is_empty());
}

#[test]
fn scenario_thread_name_mismatch_skipped() {
    // A waiting_threads entry whose tid matches but whose required name does
    // not must not be selected as the owner.
    let mut cursor = cursor_of(&[
        "----- pid 100 at 2024-08-16 10:02:11 -----",
        "Cmd line: com.app",
        "\"WorkerX\" prio=5 tid=55 Runnable",
        "  at com.app.W.x(W.java:3)",
        "  - locked <0x1> (a java.lang.Object)",
    ]);
    let mut analysis = TraceAnalysis::new();
    let mut record = LockBean::new();
    record.add_waiting("0x1".to_string());
    record.add_waiting_thread("tid=55".to_string(), Some("WorkerY".to_string()));
    let mut model: Vec<String> = Vec::new();
    let mut out: Vec<String> = Vec::new();
    let outcome = analysis.analyse_trace_by_lock(&mut record, &mut model, &mut out, &mut cursor);
    assert_eq!(outcome, ResolveOutcome::Inconclusive);
    assert!(model.is_empty());
}

#[test]
fn test_resolver_terminal_on_empty_record() {
    let mut cursor = cursor_of(&chain_trace());
    let mut analysis = TraceAnalysis::new();
    let mut record = LockBean::new();
    let mut model: Vec<String> = Vec::new();
    let mut out: Vec<String> = Vec::new();
    let outcome = analysis.analyse_trace_by_lock(&mut record, &mut model, &mut out, &mut cursor);
    assert_eq!(outcome, ResolveOutcome::TerminalReached);
    assert!(out.is_empty());
}

#[test]
fn test_resolver_inconclusive_without_evidence() {
    let mut cursor = cursor_of(&[
        "----- pid 100 at 2024-08-16 10:02:11 -----",
        "Cmd line: com.app",
        "\"other\" prio=5 tid=3 Runnable",
        "  at com.app.O.o(O.java:1)",
    ]);
    let mut analysis = TraceAnalysis::new();
    let mut record = LockBean::new();
    record.add_waiting("0x77".to_string());
    record.add_waiting_thread("tid=99".to_string(), None);
    let mut model: Vec<String> = Vec::new();
    let mut out: Vec<String> = Vec::new();
    let outcome = analysis.analyse_trace_by_lock(&mut record, &mut model, &mut out, &mut cursor);
    assert_eq!(outcome, ResolveOutcome::Inconclusive);
}

#[test]
fn test_cycle_suspected_on_mutual_wait() {
    // Two threads each reported as holding what the other waits for: the
    // walk stops with a cycle verdict instead of spinning.
    let lines = vec![
        "----- pid 100 at 2024-08-16 10:02:11 -----",
        "Cmd line: com.app",
        "\"main\" prio=5 tid=1 Blocked",
        "  at com.app.A.a(A.java:1)",
        "  - waiting to lock <0x1> (a java.lang.Object) held by tid=2",
        "  - locked <0x2> (a java.lang.Object)",
        "\"peer\" prio=5 tid=2 Blocked",
        "  at com.app.B.b(B.java:2)",
        "  - waiting to lock <0x2> (a java.lang.Object) held by tid=1",
        "  - locked <0x1> (a java.lang.Object)",
    ];
    let mut cursor = cursor_of(&lines);
    let mut analysis = TraceAnalysis::new();
    let mut bean = LogItemBean::new();
    bean.set_process_name("com.app".to_string());
    bean.set_pid("100".to_string());
    let mut item = ResultItemBean::new();
    item.set_process_name("com.app".to_string());
    let mut out: Vec<String> = Vec::new();
    // The first resolution primes the analyzer with the incident (and its
    // derived time) exactly as a batch run would.
    let code = analysis.analyse_trace(&mut cursor, &mut bean, &mut item, &mut out);
    assert_eq!(code, 2);
    // Walking the same cyclic record again must end with a cycle verdict,
    // not run forever and not report mere lack of evidence.
    let mut record = LockBean::new();
    record.add_waiting("0x1".to_string());
    record.add_waiting_thread("tid=2".to_string(), None);
    let mut model: Vec<String> = Vec::new();
    let outcome = analysis.analyse_trace_by_lock(&mut record, &mut model, &mut out, &mut cursor);
    assert_eq!(outcome, ResolveOutcome::CycleSuspected);
}

#[test]
fn test_unblocked_block() {
    let mut cursor = cursor_of(&[
        "----- pid 100 at 2024-08-16 10:02:11 -----",
        "Cmd line: com.app",
        "\"main\" prio=5 tid=1 Runnable",
        "  at com.app.M.idle(M.java:9)",
    ]);
    let mut analysis = TraceAnalysis::new();
    let mut bean = LogItemBean::new();
    bean.set_process_name("com.app".to_string());
    bean.set_pid("100".to_string());
    let mut item = ResultItemBean::new();
    item.set_process_name("com.app".to_string());
    let mut out: Vec<String> = Vec::new();
    let code = analysis.analyse_trace(&mut cursor, &mut bean, &mut item, &mut out);
    assert_eq!(code, 0);
    assert_eq!(item.get_trace_list().len(), 1);
}

#[test]
fn test_analyse_trace_list_empty() {
    let mut cursor = cursor_of(&chain_trace());
    let mut analysis = TraceAnalysis::new();
    let mut beans: Vec<LogItemBean> = Vec::new();
    let mut results: Vec<ResultItemBean> = Vec::new();
    let mut outs: Vec<Vec<String>> = Vec::new();
    let reasons = analysis.analyse_trace_list(&mut cursor, "/tmp/traces", &mut beans, &mut results, &mut outs);
    assert_eq!(reasons, vec![-2]);
    assert!(results.is_empty());
}

#[test]
fn test_analyse_trace_list_batch() {
    let mut cursor = cursor_of(&chain_trace());
    let mut analysis = TraceAnalysis::new();
    let mut bean = LogItemBean::new();
    bean.set_process_name("com.app".to_string());
    bean.set_pid("100".to_string());
    let mut beans = vec![bean];
    let mut results: Vec<ResultItemBean> = Vec::new();
    let mut outs: Vec<Vec<String>> = Vec::new();
    let reasons = analysis.analyse_trace_list(&mut cursor, "/logs/anr", &mut beans, &mut results, &mut outs);
    assert_eq!(reasons, vec![2]);
    assert_eq!(results.len(), 1);
    assert_eq!(results[0].get_process_name(), "com.app");
    assert_eq!(results[0].get_out_path(), "/logs/anr");
    assert_eq!(outs.len(), 1);
}

#[test]
fn test_cursor_read_and_reset() {
    let mut cursor = cursor_of(&["one", "two"]);
    assert_eq!(cursor.read_next_line().map(|s| s.clone()), Some("one".to_string()));
    assert_eq!(cursor.read_next_line().map(|s| s.clone()), Some("two".to_string()));
    assert!(cursor.read_next_line().is_none());
    cursor.reset_to_start();
    assert_eq!(cursor.read_next_line().map(|s| s.clone()), Some("one".to_string()));
    assert_eq!(cursor.lines_len(), 2);
}

#[test]
fn main() {
    // A walk over an empty input with an empty record ends at once.
    let src_lines: Vec<String> = Vec::new();
    let mut lock_object = LockBean::new();
    let mut cursor = LineCursor::new(src_lines);
    let mut analyser = TraceAnalysis::new();
    let mut out: Vec<String> = Vec::new();
    let outcome = analyser.analyse_trace_by_lock(&mut lock_object, &mut Vec::new(), &mut out, &mut cursor);
    assert_eq!(outcome, ResolveOutcome::TerminalReached);
}

#[test]
fn test_resolver_inconclusive_on_empty_input() {
    // A pending record against an empty input is lack of evidence, not a
    // suspected cycle.
    let mut cursor = cursor_of(&[]);
    let mut analysis = TraceAnalysis::new();
    let mut record = LockBean::new();
    record.add_waiting("0x1".to_string());
    record.add_waiting_thread("tid=2".to_string(), None);
    let mut model: Vec<String> = Vec::new();
    let mut out: Vec<String> = Vec::new();
    let outcome = analysis.analyse_trace_by_lock(&mut record, &mut model, &mut out, &mut cursor);
    assert_eq!(outcome, ResolveOutcome::Inconclusive);
}

#[test]
fn test_resolver_empty_thread_list_matches_any_block() {
    // A record with waiting objects but no thread attributions matches the
    // first block outright, and an unblocked owner ends the walk.
    let mut cursor = cursor_of(&[
        "----- pid 100 at 2024-08-16 10:02:11 -----",
        "Cmd line: com.app",
        "\"only\" prio=5 tid=3 Runnable",
        "  at com.app.O.run(O.java:1)",
    ]);
    let mut analysis = TraceAnalysis::new();
    let mut record = LockBean::new();
    record.add_waiting("0x5".to_string());
    let mut model: Vec<String> = Vec::new();
    let mut out: Vec<String> = Vec::new();
    let outcome = analysis.analyse_trace_by_lock(&mut record, &mut model, &mut out, &mut cursor);
    assert_eq!(outcome, ResolveOutcome::TerminalReached);
    assert!(model.iter().any(|l| l.contains("com.app.O.run")));
    assert!(out.iter().any(|l| l.contains("com.app.O.run")));
}

#[test]
fn test_binder_without_serving_block() {
    // A cross-process call with no block serving it anywhere ends as lack of
    // evidence.
    let mut cursor = cursor_of(&[
        "----- pid 100 at 2024-08-16 10:02:11 -----",
        "Cmd line: com.app",
        "\"other\" prio=5 tid=4 Runnable",
        "  at com.app.Other.idle(Other.java:8)",
    ]);
    let mut analysis = TraceAnalysis::new();
    let mut out: Vec<String> = Vec::new();
    let outcome = analysis.binder_call_timeout("bar", "Foo", &mut out, &mut cursor);
    assert_eq!(outcome, ResolveOutcome::Inconclusive);
    let empty_api = analysis.binder_call_timeout("", "Foo", &mut out, &mut cursor);
    assert_eq!(empty_api, ResolveOutcome::Inconclusive);
    assert!(out.is_empty());
}
