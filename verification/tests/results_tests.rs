use pairing::results::{ResultFile, ResultFiles};

fn files() -> ResultFiles {
    ResultFiles::from(vec![
        "results/.2024a/0.json".to_string(),
        "results/.2025b/1.json".to_string(),
        "results/.2024a/2.json".to_string(),
        "results/.2025b/3.json".to_string(),
    ])
}

#[test]
fn result_file_parts() {
    let f = ResultFile::from("results/e1xxxxxxxxxxxx/12.json".to_string());
    assert_eq!(f.run(), "e1xxxxxxxxxxxx");
    assert_eq!(f.path(), "/results/e1xxxxxxxxxxxx/12.json");
}

#[test]
fn result_files_runs_once_each() {
    let r = files();
    assert_eq!(r.len(), 4);
    let runs = r.runs();
    assert_eq!(runs, vec![".2024a".to_string(), ".2025b".to_string()]);
}

#[test]
fn result_files_filter_by_run() {
    let r = files();
    let only = r.filter_by_run(&".2024a".to_string());
    assert_eq!(only.len(), 2);
    assert_eq!(only.runs(), vec![".2024a".to_string()]);
    let none = r.filter_by_run(&"missing".to_string());
    assert_eq!(none.len(), 0);
}

#[test]
fn result_files_latest_run() {
    let r = files();
    let latest = r.only_latest_run();
    assert_eq!(latest.len(), 2);
    assert_eq!(latest.runs(), vec![".2025b".to_string()]);
}

#[test]
fn result_files_latest_run_is_a_prefix_extension() {
    let r = ResultFiles::from(vec![
        "results/ab/0.json".to_string(),
        "results/abc/1.json".to_string(),
        "results/a/2.json".to_string(),
    ]);
    assert_eq!(r.only_latest_run().runs(), vec!["abc".to_string()]);
}

#[test]
fn fetched_path_is_the_listed_path_from_the_root() {
    for p in ["results/a/b.json", "results//", "results/run/"] {
        let f = ResultFile::from(p.to_string());
        assert_eq!(f.path(), format!("/{}", p));
    }
}

#[test]
fn filter_by_run_twice_is_once_and_runs_part_the_files() {
    let r = files();
    let once = r.filter_by_run(&".2024a".to_string());
    let twice = once.filter_by_run(&".2024a".to_string());
    assert_eq!(twice.len(), once.len());
    assert_eq!(twice.runs(), once.runs());
    assert_eq!(once.filter_by_run(&".2025b".to_string()).len(), 0);
    let total: usize = r.runs().iter().map(|run| r.filter_by_run(run).len()).sum();
    assert_eq!(total, r.len());
}

#[test]
fn result_files_from_an_index() {
    let index = "[\"results/.2024a/0.json\", \"results/.2025b/1.json\"]".to_string();
    let r = ResultFiles::from_index(&index).expect("an index of result files");
    assert_eq!(r.len(), 2);
    assert_eq!(r.runs(), vec![".2024a".to_string(), ".2025b".to_string()]);
    assert!(ResultFiles::from_index(&"[\"elsewhere/x/0.json\"]".to_string()).is_none());
    assert!(ResultFiles::from_index(&"[\"results/x/y/0.json\"]".to_string()).is_none());
    assert!(ResultFiles::from_index(&"[1]".to_string()).is_none());
    assert!(ResultFiles::from_index(&"{}".to_string()).is_none());
    assert!(ResultFiles::from_index(&"[]".to_string()).is_some());
}

#[test]
fn result_files_paths_for_fetching() {
    let r = files();
    assert_eq!(
        r.paths(),
        vec![
            "/results/.2024a/0.json".to_string(),
            "/results/.2025b/1.json".to_string(),
            "/results/.2024a/2.json".to_string(),
            "/results/.2025b/3.json".to_string(),
        ]
    );
}
