use salvosim::models::{
    ImpactEvent, InterceptionEvent, RunDefender, StepRecord, ThreatLaunch, Chance, Doctrine,
};
use salvosim::web::address::parse_addr_parts;
use salvosim::web::charts::{chart_series, fits_charts};
use salvosim::web::names::{scenario_file_name, strip_toml_ext, toml_scenario_stem};
use salvosim::web::scenario::{
    default_iterations, name_before, scenario_info, sort_scenarios, ScenarioInfo, TomlEntry,
    TomlValue,
};

fn entry(key: &str, value: TomlValue) -> TomlEntry {
    TomlEntry { key: key.to_string(), value }
}

fn text(s: &str) -> TomlValue {
    TomlValue::Str(s.to_string())
}

/// The document of the example scenario shipped as scenarios/scenario-mc.toml.
fn scenario_mc_document() -> TomlValue {
    TomlValue::Table(vec![
        entry(
            "scenario",
            TomlValue::Table(vec![
                entry("name", text("Operation Distant Thunder - Multi-Axis Strike")),
                entry(
                    "description",
                    text("10,000 iteration Monte Carlo testing a coordinated multi-domain strike."),
                ),
                entry("iterations", TomlValue::Int(10000)),
            ]),
        ),
        entry("defenders", TomlValue::Other),
        entry("attackers", TomlValue::Other),
    ])
}

fn info(name: &str) -> ScenarioInfo {
    ScenarioInfo {
        name: name.to_string(),
        display_name: name.to_uppercase(),
        description: String::new(),
        execution_mode: String::new(),
    }
}

#[test]
fn load_info_parses_valid_toml() {
    let info = scenario_info("scenario-mc".to_string(), &scenario_mc_document())
        .expect("load_info should parse scenario-mc.toml");
    assert_eq!(info.name, "scenario-mc");
    assert_eq!(info.display_name, "Operation Distant Thunder - Multi-Axis Strike");
}

#[test]
fn list_scenarios_finds_toml_files() {
    let dir = vec!["scenario-st.toml", "notes.txt", "scenario-mc.toml", ".toml", "scenario-iads.toml.bak"];
    let mut scenarios: Vec<ScenarioInfo> = Vec::new();
    for file in dir {
        if let Some(stem) = toml_scenario_stem(file) {
            let doc = TomlValue::Table(vec![entry(
                "scenario",
                TomlValue::Table(vec![entry("name", text(&stem))]),
            )]);
            if let Some(info) = scenario_info(stem, &doc) {
                scenarios.push(info);
            }
        }
    }
    sort_scenarios(&mut scenarios);
    assert!(
        !scenarios.is_empty(),
        "list_scenarios('scenarios/') returned empty — expected at least scenario-mc and scenario-st"
    );
    let names: Vec<&str> = scenarios.iter().map(|s| s.name.as_str()).collect();
    assert!(names.contains(&"scenario-mc"), "should find scenario-mc, got {names:?}");
    assert!(names.contains(&"scenario-st"), "should find scenario-st, got {names:?}");
    assert_eq!(names, vec!["scenario-mc", "scenario-st"]);
}

#[test]
fn scenario_info_defaults_and_failures() {
    let doc = TomlValue::Table(vec![entry(
        "scenario",
        TomlValue::Table(vec![
            entry("name", text("N")),
            entry("description", TomlValue::Int(3)),
            entry("execution_mode", text("interactive")),
        ]),
    )]);
    let i = scenario_info("n".to_string(), &doc).unwrap();
    assert_eq!(i.description, "");
    assert_eq!(i.execution_mode, "interactive");
    let no_name = TomlValue::Table(vec![entry("scenario", TomlValue::Table(vec![entry("name", TomlValue::Int(1))]))]);
    assert!(scenario_info("n".to_string(), &no_name).is_none());
    assert!(scenario_info("n".to_string(), &TomlValue::Table(vec![])).is_none());
}

#[test]
fn default_iterations_reads_or_defaults() {
    assert_eq!(default_iterations(&scenario_mc_document()), 10000);
    assert_eq!(default_iterations(&TomlValue::Table(vec![])), 1000);
    let negative = TomlValue::Table(vec![entry(
        "scenario",
        TomlValue::Table(vec![entry("iterations", TomlValue::Int(-1))]),
    )]);
    assert_eq!(default_iterations(&negative), u32::MAX);
    let not_int = TomlValue::Table(vec![entry(
        "scenario",
        TomlValue::Table(vec![entry("iterations", text("many"))]),
    )]);
    assert_eq!(default_iterations(&not_int), 1000);
}

#[test]
fn names_compare_lexicographically() {
    assert!(name_before(&"abc".to_string(), &"abd".to_string()));
    assert!(name_before(&"ab".to_string(), &"abc".to_string()));
    assert!(!name_before(&"abc".to_string(), &"abc".to_string()));
    assert!(!name_before(&"b".to_string(), &"abc".to_string()));
    assert!(name_before(&"Z".to_string(), &"a".to_string()));
}

#[test]
fn sort_scenarios_is_stable_by_name() {
    let mut v = vec![info("c"), info("a"), info("b"), info("a")];
    v[1].description = "first".to_string();
    v[3].description = "second".to_string();
    sort_scenarios(&mut v);
    let names: Vec<&str> = v.iter().map(|s| s.name.as_str()).collect();
    assert_eq!(names, vec!["a", "a", "b", "c"]);
    assert_eq!(v[0].description, "first");
    assert_eq!(v[1].description, "second");
}

#[test]
fn toml_extension_handling() {
    assert_eq!(strip_toml_ext("scenario-mc.toml"), "scenario-mc");
    assert_eq!(strip_toml_ext("scenario-mc"), "scenario-mc");
    assert_eq!(strip_toml_ext(".toml"), "");
    assert_eq!(strip_toml_ext("a.TOML"), "a.TOML");
    assert_eq!(scenario_file_name("my-scenario"), "my-scenario.toml");
    assert_eq!(toml_scenario_stem("x.toml"), Some("x".to_string()));
    assert_eq!(toml_scenario_stem(".toml"), None);
    assert_eq!(toml_scenario_stem("x.yaml"), None);
    assert_eq!(toml_scenario_stem("a.b.toml"), Some("a.b".to_string()));
}

#[test]
fn saved_scenario_lists_under_its_name() {
    for name in ["Operation Thunder", "a", "x.toml", "scenario-st"] {
        let file = scenario_file_name(name);
        assert_eq!(toml_scenario_stem(&file), Some(name.to_string()));
        assert_eq!(strip_toml_ext(&file), name);
    }
}

#[test]
fn address_parts() {
    assert_eq!(parse_addr_parts("0.0.0.0:8080"), ("0.0.0.0".to_string(), 8080));
    assert_eq!(parse_addr_parts("127.0.0.1:9090"), ("127.0.0.1".to_string(), 9090));
    assert_eq!(parse_addr_parts("localhost"), ("localhost".to_string(), 8080));
    assert_eq!(parse_addr_parts("h:+80"), ("h".to_string(), 80));
    assert_eq!(parse_addr_parts("h:65536"), ("h".to_string(), 8080));
    assert_eq!(parse_addr_parts("h:65535"), ("h".to_string(), 65535));
    assert_eq!(parse_addr_parts("h:"), ("h".to_string(), 8080));
    assert_eq!(parse_addr_parts("h:8a"), ("h".to_string(), 8080));
    assert_eq!(parse_addr_parts("::1"), ("".to_string(), 8080));
    assert_eq!(parse_addr_parts("h:81:82"), ("h".to_string(), 81));
    assert_eq!(parse_addr_parts("h:0000081"), ("h".to_string(), 81));
    assert_eq!(parse_addr_parts("h:99999999999"), ("h".to_string(), 8080));
}

fn snapshot(name: &str, sp: u32) -> RunDefender {
    RunDefender {
        name: name.to_string(),
        staying_power: sp,
        hits_taken: 0,
        magazine_depth: 0,
        max_engagement_capacity: 0,
        pkd: Chance { rank: 0, bound: 0 },
        doctrine: Doctrine::MaxDefense,
    }
}

fn record(step: usize, launched: Vec<u32>, leaked: Vec<u32>, fired: Vec<u32>, snaps: Vec<RunDefender>) -> StepRecord {
    StepRecord {
        step,
        max_steps: 5,
        is_complete: false,
        threat_launches: launched
            .into_iter()
            .map(|n| ThreatLaunch {
                attacker_name: "X".to_string(),
                target_name: "A".to_string(),
                missiles_fired: n,
                pko_label: "80%".to_string(),
            })
            .collect(),
        interceptions: fired
            .into_iter()
            .map(|n| InterceptionEvent {
                defender_name: "A".to_string(),
                doctrine_label: "Max Defense".to_string(),
                interceptors_fired: n,
                threats_intercepted: 0,
                max_engagement_capacity: 9,
            })
            .collect(),
        impacts: leaked
            .into_iter()
            .map(|n| ImpactEvent {
                target_name: "A".to_string(),
                missiles_leaked: n,
                hits_scored: 0,
                hp_before: 0,
                hp_after: 0,
                destroyed: false,
            })
            .collect(),
        defender_snapshots: snaps,
    }
}

#[test]
fn chart_series_of_history() {
    let initial = vec![snapshot("A", 4), snapshot("B", 3)];
    let history = vec![
        record(0, vec![3, 2], vec![1], vec![4], vec![snapshot("B", 3), snapshot("A", 3)]),
        record(1, vec![1], vec![2, 1], vec![], vec![snapshot("A", 1)]),
    ];
    assert!(fits_charts(&history));
    let s = chart_series(&initial, &history);
    assert_eq!(s.hp_names, vec!["A".to_string(), "B".to_string()]);
    assert_eq!(s.hp_series, vec![vec![4, 3, 1], vec![3, 3, 0]]);
    assert_eq!(s.mf_step, vec![1, 2]);
    assert_eq!(s.int_step, vec![1, 2]);
    assert_eq!(s.mf_incoming, vec![5, 1]);
    assert_eq!(s.mf_survived, vec![1, 3]);
    assert_eq!(s.mf_intercepted, vec![4, 0]);
    assert_eq!(s.int_fired, vec![4, 0]);
}

#[test]
fn chart_sums_that_overflow_are_refused() {
    let history = vec![record(0, vec![u32::MAX, 1], vec![], vec![], vec![])];
    assert!(!fits_charts(&history));
    let last_step = vec![record(usize::MAX, vec![], vec![], vec![], vec![])];
    assert!(!fits_charts(&last_step));
}
