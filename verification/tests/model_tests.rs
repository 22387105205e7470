use anr_trace::anr_result_bean::ANRResultBean;
use anr_trace::lock_bean::HeldThread;
use anr_trace::Analyse;
use anr_trace::cli_parser::{Cli, Mode};
use anr_trace::file_utils::{get_file_type, get_suffix, is_empty};
use anr_trace::log_item_bean::LogItemBean;
use anr_trace::result_item_bean::ResultItemBean;
use anr_trace::text::mask_digits;
use anr_trace::trace_analysis::{parse_single_log, turn_result_item_to_anr_list, TraceAnalysis};

#[test]
fn test_add_traces() {
    let mut anr_result = ANRResultBean::new();
    anr_result.set_process_name("example_process".to_string());
    let traces = vec![
        "Thread 1234 waiting".to_string(),
        "Thread 5678 running".to_string(),
    ];
    let index = anr_result.add_traces(&traces);
    anr_result.add_log_file_path("path/to/log1.log".to_string(), index);
    assert_eq!(anr_result.group_count(), 1);
    assert_eq!(anr_result.get_group_paths(0).len(), 1);
    assert_eq!(
        *anr_result.get_group_traces(0),
        vec!["Thread XXXX waiting".to_string(), "Thread XXXX running".to_string()]
    );
}

#[test]
fn scenario_duplicate_signature_grouped() {
    // Two incidents whose frames differ only in digits normalize to one
    // signature and land in one occurrence group with a count of 2.
    let a = ResultItemBean::with_details(
        "com.app".to_string(),
        vec!["at a.b.c(12)".to_string(), "at d.e(34)".to_string()],
        "log/a.txt".to_string(),
    );
    let b = ResultItemBean::with_details(
        "com.app".to_string(),
        vec!["at a.b.c(99)".to_string(), "at d.e(77)".to_string()],
        "log/b.txt".to_string(),
    );
    let groups = turn_result_item_to_anr_list(vec![a, b]);
    assert_eq!(groups.len(), 1);
    assert_eq!(groups[0].get_process_name(), "com.app");
    assert_eq!(groups[0].group_count(), 1);
    assert_eq!(groups[0].get_group_paths(0).len(), 2);
    assert_eq!(
        *groups[0].get_group_traces(0),
        vec!["at a.b.c(XX)".to_string(), "at d.e(XX)".to_string()]
    );
}

#[test]
fn test_grouping_symmetric_order() {
    // The same two incidents, grouped in either order, give the same group
    // count and the same per-group occurrence counts.
    let a = ResultItemBean::with_details(
        "com.app".to_string(),
        vec!["at a.b.c(12)".to_string()],
        "log/a.txt".to_string(),
    );
    let b = ResultItemBean::with_details(
        "com.app".to_string(),
        vec!["at x.y.z(5)".to_string()],
        "log/b.txt".to_string(),
    );
    let a2 = ResultItemBean::with_details(
        "com.app".to_string(),
        vec!["at a.b.c(12)".to_string()],
        "log/a.txt".to_string(),
    );
    let b2 = ResultItemBean::with_details(
        "com.app".to_string(),
        vec!["at x.y.z(5)".to_string()],
        "log/b.txt".to_string(),
    );
    let g1 = turn_result_item_to_anr_list(vec![a, b]);
    let g2 = turn_result_item_to_anr_list(vec![b2, a2]);
    assert_eq!(g1.len(), g2.len());
    assert_eq!(g1[0].group_count(), g2[0].group_count());
    let mut counts1: Vec<usize> = (0..g1[0].group_count()).map(|i| g1[0].get_group_paths(i).len()).collect();
    let mut counts2: Vec<usize> = (0..g2[0].group_count()).map(|i| g2[0].get_group_paths(i).len()).collect();
    counts1.sort();
    counts2.sort();
    assert_eq!(counts1, counts2);
}

#[test]
fn test_normalize_projection() {
    // Normalization is a projection: a second pass changes nothing.
    let once = mask_digits("at com.app.Foo.bar(Foo.java:123) pc=0x7fa3");
    let twice = mask_digits(&once);
    assert_eq!(once, "at com.app.Foo.bar(Foo.java:XXX) pc=XxXfaX");
    assert_eq!(once, twice);
}

#[test]
fn test_compare_trace() {
    let mut anr = ANRResultBean::new();
    anr.set_process_name("p".to_string());
    let idx = anr.add_traces(&vec!["at a(1)".to_string()]);
    assert_eq!(idx, 0);
    assert_eq!(anr.compare_trace(&mut vec!["at a(7)".to_string()]), Some(0));
    assert_eq!(anr.compare_trace(&mut vec!["at b(7)".to_string()]), None);
    assert_eq!(anr.compare_trace(&mut Vec::new()), None);
}

#[test]
fn test_is_same_list() {
    let x = vec!["a".to_string(), "b".to_string()];
    let y = vec!["a".to_string(), "b".to_string()];
    let z = vec!["a".to_string()];
    assert!(ANRResultBean::is_same_list(&x, &y));
    assert!(!ANRResultBean::is_same_list(&x, &z));
    assert!(ANRResultBean::is_same_list(&Vec::new(), &Vec::new()));
}

#[test]
fn test_time_in_frame() {
    let mut bean = LogItemBean::new();
    bean.set_time("2024-08-16 10:02:11".to_string());
    assert!(bean.time_in_frame("2024-08-16 10:02:31", 30000));
    assert!(!bean.time_in_frame("2024-08-16 10:02:31", 15000));
    assert!(!bean.time_in_frame("2024-08-16 10:03:00", 21000));
    assert!(bean.time_in_frame("2024-08-16 10:02:11", 1));
    assert!(!bean.time_in_frame("not a time", 30000));
    assert!(!bean.time_in_frame("", 30000));
}

#[test]
fn test_equals() {
    let mut a = LogItemBean::new();
    a.set_pid("7".to_string());
    a.set_time("2024-08-16 10:02:11".to_string());
    let mut b = LogItemBean::new();
    b.set_pid("7".to_string());
    assert!(a.equals(&b, 30000));
    b.set_time("2024-08-16 10:02:20".to_string());
    assert!(a.equals(&b, 30000));
    assert!(!a.equals(&b, 5000));
    b.set_pid("8".to_string());
    assert!(!a.equals(&b, 30000));
}

#[test]
fn test_log_item_accessors() {
    let mut bean = LogItemBean::new();
    assert!(bean.get_reason().is_none());
    bean.set_reason("anr".to_string());
    bean.set_process_name("com.app".to_string());
    bean.set_time("2024-08-16 10:02:11".to_string());
    bean.set_pid("100".to_string());
    bean.set_tid("1".to_string());
    bean.set_description("desc".to_string());
    bean.set_content("content".to_string());
    assert_eq!(bean.get_reason(), Some("anr"));
    assert_eq!(bean.get_process_name(), Some("com.app"));
    assert_eq!(bean.get_time(), Some("2024-08-16 10:02:11"));
    assert_eq!(bean.get_pid(), Some("100"));
    assert_eq!(bean.get_tid(), Some("1"));
    assert_eq!(bean.get_description(), Some("desc"));
    assert_eq!(bean.get_content(), Some("content"));
    let copy = bean.clone();
    assert_eq!(copy.get_pid(), Some("100"));
    let with = LogItemBean::with_details(
        "t".to_string(),
        "p".to_string(),
        "d".to_string(),
        "de".to_string(),
        "c".to_string(),
    );
    assert_eq!(with.get_time(), Some("t"));
    assert_eq!(with.get_process_name(), None);
}

#[test]
fn test_result_item_accessors() {
    let mut item = ResultItemBean::new();
    item.set_process_name("p".to_string());
    item.set_trace_list("line1".to_string());
    item.set_trace_list("line2".to_string());
    item.set_out_path("out".to_string());
    assert_eq!(item.get_process_name(), "p");
    assert_eq!(*item.get_trace_list(), vec!["line1".to_string(), "line2".to_string()]);
    assert_eq!(item.get_out_path(), "out");
    item.get_trace_list_mut().clear();
    assert!(item.get_trace_list().is_empty());
    *item.get_process_name_mut() = "q".to_string();
    assert_eq!(item.get_process_name(), "q");
    *item.get_out_path_mut() = "out2".to_string();
    assert_eq!(item.get_out_path(), "out2");
}

#[test]
fn test_output_file_name() {
    let mut bean = LogItemBean::new();
    bean.set_process_name("com.app".to_string());
    assert_eq!(TraceAnalysis::output_file_name(&bean), "result_trace_com.app");
    bean.set_time("2024-08-16 10:02:11".to_string());
    assert_eq!(
        TraceAnalysis::output_file_name(&bean),
        "result_trace_com.app_2024-08-16 10:02:11"
    );
}

#[test]
fn test_get_file_type() {
    assert_eq!(get_file_type("bundle.zip", false), 1);
    assert_eq!(get_file_type("bundle.tar.GZ", false), 1);
    assert_eq!(get_file_type("old.RAR", false), 2);
    assert_eq!(get_file_type("trace.log", false), 3);
    assert_eq!(get_file_type("trace.txt", false), 3);
    assert_eq!(get_file_type("device.bugreport", false), 3);
    assert_eq!(get_file_type("somedir", true), 0);
    assert_eq!(get_file_type("", false), -1);
    assert_eq!(get_file_type("   ", false), -1);
    assert_eq!(get_file_type("noext", false), -1);
    assert_eq!(get_file_type("archive.7z", false), -1);
}

#[test]
fn test_get_suffix() {
    assert_eq!(get_suffix("a/b/c.ZIP"), Some("zip".to_string()));
    assert_eq!(get_suffix("plain"), None);
    assert_eq!(get_suffix("dir.d/plain"), None);
    assert_eq!(get_suffix(".hidden"), None);
}

#[test]
fn test_is_empty() {
    assert!(is_empty(""));
    assert!(is_empty("   \t"));
    assert!(!is_empty(" x "));
}

#[test]
fn test_parse_single_log() {
    let items = parse_single_log("bundle.zip", &Vec::new()).unwrap();
    assert_eq!(items.len(), 1);
    assert_eq!(items[0].get_out_path(), "bundle");
    assert_eq!(items[0].get_process_name(), "example_process");
    let items2 = parse_single_log("dump.tar.gz", &Vec::new()).unwrap();
    assert_eq!(items2[0].get_out_path(), "dump");
    let items3 = parse_single_log("trace.txt", &Vec::new()).unwrap();
    assert_eq!(items3[0].get_out_path(), "trace.txt");
    assert_eq!(*items3[0].get_trace_list(), vec!["trace1".to_string(), "trace2".to_string()]);
}

#[test]
fn test_cli_mode() {
    let cli = Cli {
        file_path: Some("trace.txt".to_string()),
        mode: Mode::Parse,
        process_name: None,
        repl: false,
    };
    assert_eq!(cli.mode, Mode::Parse);
    assert!(Mode::AnalyseTrace != Mode::Bugreport);
    let copy = cli.clone();
    assert_eq!(copy.file_path.as_deref(), Some("trace.txt"));
}

#[test]
fn test_set_tolerances() {
    // The two windows are calibration values; the engine takes them as
    // parameters.
    let mut analysis = TraceAnalysis::new();
    analysis.set_tolerances(60000, 42000);
    let mut bean = LogItemBean::new();
    bean.set_time("2024-08-16 10:02:11".to_string());
    assert!(bean.time_in_frame("2024-08-16 10:02:50", 60000));
}

#[test]
fn test_time_window_boundary() {
    // The window is strict: a distance equal to the tolerance lies outside.
    let mut bean = LogItemBean::new();
    bean.set_time("2024-08-16 10:02:00".to_string());
    assert!(!bean.time_in_frame("2024-08-16 10:02:30", 30000));
    assert!(bean.time_in_frame("2024-08-16 10:02:30", 30001));
}

#[test]
fn test_analyse_trait_impl() {
    struct FixedAnalyser;

    impl Analyse for FixedAnalyser {
        fn analyse(&self, file: &str, _param_string: &str) -> Vec<ResultItemBean> {
            vec![ResultItemBean::with_details(
                "p".to_string(),
                Vec::new(),
                file.to_string(),
            )]
        }
    }

    let items = FixedAnalyser.analyse("trace.txt", "");
    assert_eq!(items.len(), 1);
    assert_eq!(items[0].get_out_path(), "trace.txt");
}

#[test]
fn test_held_thread_new() {
    let t = HeldThread::new("tid=5".to_string(), Some("worker".to_string()));
    assert_eq!(t.tid, "tid=5");
    assert_eq!(t.thread_name.as_deref(), Some("worker"));
    let u = t.clone();
    assert_eq!(u.tid, "tid=5");
}

#[test]
fn test_grouping_by_process() {
    // Incidents route to their own process's collection; distinct signatures
    // open distinct groups.
    let a = ResultItemBean::with_details(
        "com.app".to_string(),
        vec!["at a.b(1)".to_string()],
        "log/a.txt".to_string(),
    );
    let b = ResultItemBean::with_details(
        "com.other".to_string(),
        vec!["at a.b(1)".to_string()],
        "log/b.txt".to_string(),
    );
    let c = ResultItemBean::with_details(
        "com.app".to_string(),
        vec!["at z.z(9)".to_string()],
        "log/c.txt".to_string(),
    );
    let groups = turn_result_item_to_anr_list(vec![a, b, c]);
    assert_eq!(groups.len(), 2);
    assert_eq!(groups[0].get_process_name(), "com.app");
    assert_eq!(groups[0].group_count(), 2);
    assert_eq!(groups[1].get_process_name(), "com.other");
    assert_eq!(groups[1].group_count(), 1);
    assert_eq!(groups[0].get_group_paths(0).len(), 1);
    assert_eq!(groups[0].get_group_paths(1).len(), 1);
}
