use pairing::json::{collect_paths_from_json, parse_json, shallow_json_to_key, Json};
use pairing::plot_settings::{text_complies_with, texts_complying_with, PlotSettings};

fn parse(s: &str) -> Json {
    parse_json(&s.to_string()).expect("Could not parse json file")
}

fn strings(rows: &[&[&str]]) -> Vec<Vec<String>> {
    rows.iter()
        .map(|r| r.iter().map(|s| s.to_string()).collect())
        .collect()
}

#[test]
fn test_collect_paths() {
    let s = "{\"settings\": {\"third\": {\"a\": 100, \"b\": [\"200\", \"300\"]}}}".to_string();
    let value = parse(&s);
    let paths = collect_paths_from_json(&value);
    assert_eq!(
        paths,
        strings(&[
            &["settings", "third", "a", "100"],
            &["settings", "third", "b", "200"],
            &["settings", "third", "b", "300"],
        ])
    );
}

#[test]
fn test_merge_simple() {
    let files = vec![
        "{\"settings\": {\"pop\": \"10\"}}".to_string(),
        "{\"settings\": {\"pop\": \"100\"}}".to_string(),
        "{\"settings\": {\"pop\": \"1000\"}}".to_string(),
        "{\"settings\": {\"gen\": \"10\"}}".to_string(),
        "{\"settings\": {\"gen\": \"100\"}}".to_string(),
        "{\"settings\": {\"third\": {\"a\": \"10\", \"b\":\"20\"}}}".to_string(),
        "{\"settings\": {\"third\": {\"a\": \"100\", \"b\":\"200\"}}}".to_string(),
    ];
    let settings = PlotSettings::from_result_files_content(files.clone());
    let mut paths = settings.paths();
    paths.sort();
    assert_eq!(
        paths,
        strings(&[
            &["settings", "gen", "10"],
            &["settings", "gen", "100"],
            &["settings", "pop", "10"],
            &["settings", "pop", "100"],
            &["settings", "pop", "1000"],
            &["settings", "third", "a", "10"],
            &["settings", "third", "a", "100"],
            &["settings", "third", "b", "20"],
            &["settings", "third", "b", "200"],
        ])
    );
}

#[test]
fn test_merge_real_settings() {}

#[test]
fn traces_are_left_out_and_paths_kept_once() {
    let files = vec![
        String::from("{\"evaluated_traces\": {\"x\": 1}, \"settings\": {\"pop\": true}}"),
        String::from("{\"settings\": {\"pop\": true}}"),
    ];
    let settings = PlotSettings::from_result_files_content(files);
    assert_eq!(settings.paths(), strings(&[&["settings", "pop", "true"]]));
    assert_eq!(settings.settings_map.get(&strings(&[&["settings", "pop", "true"]])[0]), Some(&false));
}

#[test]
fn toggling_and_compliance() {
    let one = PlotSettings::from_result_file_content(String::from("{\"s\": {\"a\": \"1\", \"b\": \"2\"}}"));
    let mut all = PlotSettings::from_result_files_content(vec![
        String::from("{\"s\": {\"a\": \"1\", \"b\": \"2\"}}"),
        String::from("{\"s\": {\"a\": \"3\"}}"),
    ]);
    assert!(!one.complies_with(&all));
    let a = strings(&[&["s", "a", "1"]]).remove(0);
    let b = strings(&[&["s", "b", "2"]]).remove(0);
    all.toggle(a.clone());
    assert!(!one.complies_with(&all));
    all.toggle(b.clone());
    assert!(one.complies_with(&all));
    all.toggle(b.clone());
    all.toggle(b);
    assert!(one.complies_with(&all));
    let empty = PlotSettings::from_result_files_content(vec![]);
    assert!(empty.complies_with(&one));
    assert!(!one.complies_with(&empty));
}

#[test]
fn toggling_twice_restores() {
    let mut s = PlotSettings::from_result_file_content(String::from("{\"k\": [1, 2]}"));
    let before: Vec<(Vec<String>, bool)> = s.settings_map.iter().map(|(k, v)| (k.clone(), *v)).collect();
    let path = strings(&[&["k", "2"]]).remove(0);
    s.toggle(path.clone());
    assert_eq!(s.settings_map.get(&path), Some(&true));
    s.toggle(path);
    let after: Vec<(Vec<String>, bool)> = s.settings_map.iter().map(|(k, v)| (k.clone(), *v)).collect();
    assert_eq!(before, after);
}

#[test]
fn leaf_keys() {
    assert_eq!(shallow_json_to_key(&Json::Bool(false)), "false");
    assert_eq!(shallow_json_to_key(&Json::Number("2.5".to_string())), "2.5");
    assert_eq!(shallow_json_to_key(&Json::String("x".to_string())), "x");
    assert_eq!(shallow_json_to_key(&parse("17")), "17");
}

#[test]
fn settings_keep_the_order_in_which_paths_first_occur() {
    let files = vec![
        "{\"settings\": {\"pop\": \"100\", \"gen\": \"5\"}}".to_string(),
        "{\"settings\": {\"pop\": \"10\", \"gen\": \"5\"}, \"evaluated_traces\": [1]}".to_string(),
        "{\"settings\": {\"pop\": \"100\"}}".to_string(),
    ];
    let settings = PlotSettings::from_result_files_content(files.clone());
    assert_eq!(
        settings.paths(),
        strings(&[
            &["settings", "gen", "5"],
            &["settings", "pop", "100"],
            &["settings", "pop", "10"],
        ])
    );
}

#[test]
fn unreadable_texts_give_no_settings() {
    let good = "{\"s\": {\"a\": \"1\"}}".to_string();
    assert!(PlotSettings::try_from_result_files_content(vec![good.clone()]).is_some());
    assert!(PlotSettings::try_from_result_files_content(vec![good.clone(), "{not json".to_string()]).is_none());
    assert!(PlotSettings::try_from_result_files_content(vec!["[1, 2]".to_string()]).is_none());
    assert!(PlotSettings::try_from_result_file_content("{\"s\": null}".to_string()).is_none());
    let one = PlotSettings::try_from_result_file_content(good).expect("readable");
    assert_eq!(one.paths(), strings(&[&["s", "a", "1"]]));
}

#[test]
fn texts_comply_with_switched_on_paths() {
    let first = "{\"s\": {\"a\": \"1\"}, \"evaluated_traces\": [3]}".to_string();
    let second = "{\"s\": {\"a\": \"2\"}}".to_string();
    let mut settings = PlotSettings::from_result_files_content(vec![first.clone(), second.clone()]);
    settings.toggle(strings(&[&["s", "a", "1"]]).remove(0));
    assert!(text_complies_with(&first, &settings));
    assert!(!text_complies_with(&second, &settings));
    assert!(!text_complies_with(&"{broken".to_string(), &settings));
    let texts = vec![second.clone(), first.clone(), "{broken".to_string(), first.clone()];
    assert_eq!(texts_complying_with(&texts, &settings), vec![first.clone(), first]);
}

#[test]
fn parsed_numbers_keep_their_rendering() {
    match parse("{\"x\": 1.50}") {
        Json::Object(members) => {
            assert_eq!(members.len(), 1);
            assert_eq!(members[0].0, "x");
            assert_eq!(shallow_json_to_key(&members[0].1), "1.5");
        }
        _ => panic!("an object"),
    }
    assert!(parse_json(&"nope".to_string()).is_none());
}
