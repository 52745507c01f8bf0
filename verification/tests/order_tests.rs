use plugin_host::descriptor::Dependency;
use plugin_host::descriptor::PluginInfo;
use plugin_host::descriptor::ValidateError;
use plugin_host::descriptor::admit_descriptors;
use plugin_host::descriptor::normalize_priority;
use plugin_host::descriptor::validate_descriptor;
use plugin_host::order::LoadError;
use plugin_host::order::apply_init_results;
use plugin_host::order::compute_load_plan;
use plugin_host::order::load_order_names;
use plugin_host::order::unload_order;
use plugin_host::ABI_V1;
use plugin_host::DEP_TYPE_OPTIONAL;
use plugin_host::DEP_TYPE_REQUIRED;
use plugin_host::PRIORITY_DEFAULT;
use plugin_host::PRIORITY_FIRST;
use plugin_host::PRIORITY_LATER;

fn desc(name: &str, priority: i8, deps: Vec<(&str, u8)>) -> PluginInfo {
    PluginInfo {
        name: name.to_string(),
        version: "1.0.0".to_string(),
        abi_version: ABI_V1,
        priority,
        dependencies: deps
            .into_iter()
            .map(|(n, kind)| Dependency { name: n.to_string(), kind })
            .collect(),
    }
}

#[test]
fn plan_places_required_dependency_first() {
    let descs = vec![
        desc("ui", PRIORITY_DEFAULT, vec![("core", DEP_TYPE_REQUIRED)]),
        desc("core", PRIORITY_DEFAULT, vec![]),
    ];
    let plan = compute_load_plan(&descs);
    assert_eq!(plan.order, vec![1, 0]);
    assert!(plan.failed.is_empty());
    let names = load_order_names(&descs, &plan);
    assert_eq!(names, vec!["core".to_string(), "ui".to_string()]);
}

#[test]
fn unload_order_is_exact_reverse() {
    let loaded = vec![2usize, 0, 1];
    assert_eq!(unload_order(&loaded), vec![1, 0, 2]);
    let empty: Vec<usize> = Vec::new();
    assert_eq!(unload_order(&empty), Vec::<usize>::new());
}

#[test]
fn chain_of_required_dependencies_orders_linearly() {
    let descs = vec![
        desc("c", PRIORITY_DEFAULT, vec![("b", DEP_TYPE_REQUIRED)]),
        desc("b", PRIORITY_DEFAULT, vec![("a", DEP_TYPE_REQUIRED)]),
        desc("a", PRIORITY_DEFAULT, vec![]),
    ];
    let plan = compute_load_plan(&descs);
    assert_eq!(plan.order, vec![2, 1, 0]);
    assert!(plan.failed.is_empty());
}

#[test]
fn mutual_required_cycle_fails_both_and_loads_neither() {
    let descs = vec![
        desc("a", PRIORITY_DEFAULT, vec![("b", DEP_TYPE_REQUIRED)]),
        desc("b", PRIORITY_DEFAULT, vec![("a", DEP_TYPE_REQUIRED)]),
        desc("c", PRIORITY_DEFAULT, vec![]),
    ];
    let plan = compute_load_plan(&descs);
    assert_eq!(plan.order, vec![2]);
    assert_eq!(plan.failed.len(), 2);
    let mut failed: Vec<usize> = plan.failed.iter().map(|f| f.index).collect();
    failed.sort();
    assert_eq!(failed, vec![0, 1]);
    for f in &plan.failed {
        assert!(matches!(f.error, LoadError::DependencyCycle));
    }
}

#[test]
fn priorities_order_first_default_later_regardless_of_discovery_order() {
    let sets = vec![
        vec![("later", PRIORITY_LATER), ("first", PRIORITY_FIRST), ("default", PRIORITY_DEFAULT)],
        vec![("default", PRIORITY_DEFAULT), ("later", PRIORITY_LATER), ("first", PRIORITY_FIRST)],
        vec![("first", PRIORITY_FIRST), ("default", PRIORITY_DEFAULT), ("later", PRIORITY_LATER)],
    ];
    for set in sets {
        let descs: Vec<PluginInfo> =
            set.iter().map(|(n, p)| desc(n, *p, vec![])).collect();
        let plan = compute_load_plan(&descs);
        assert!(plan.failed.is_empty());
        let names = load_order_names(&descs, &plan);
        assert_eq!(
            names,
            vec!["first".to_string(), "default".to_string(), "later".to_string()]
        );
    }
}

#[test]
fn equal_priorities_keep_discovery_order() {
    let descs = vec![
        desc("one", PRIORITY_DEFAULT, vec![]),
        desc("two", PRIORITY_DEFAULT, vec![]),
        desc("three", PRIORITY_DEFAULT, vec![]),
    ];
    let plan = compute_load_plan(&descs);
    assert_eq!(plan.order, vec![0, 1, 2]);
}

#[test]
fn missing_required_dependency_fails_dependent_only() {
    let descs = vec![
        desc("needy", PRIORITY_DEFAULT, vec![("ghost", DEP_TYPE_REQUIRED)]),
        desc("fine", PRIORITY_DEFAULT, vec![]),
    ];
    let plan = compute_load_plan(&descs);
    assert_eq!(plan.order, vec![1]);
    assert_eq!(plan.failed.len(), 1);
    assert_eq!(plan.failed[0].index, 0);
    match &plan.failed[0].error {
        LoadError::MissingRequiredDependency { name } => assert_eq!(name, "ghost"),
        LoadError::DependencyCycle => panic!("expected a missing dependency"),
    }
}

#[test]
fn missing_required_dependency_fails_transitively() {
    let descs = vec![
        desc("top", PRIORITY_DEFAULT, vec![("mid", DEP_TYPE_REQUIRED)]),
        desc("mid", PRIORITY_DEFAULT, vec![("ghost", DEP_TYPE_REQUIRED)]),
        desc("other", PRIORITY_DEFAULT, vec![]),
    ];
    let plan = compute_load_plan(&descs);
    assert_eq!(plan.order, vec![2]);
    let mut failed: Vec<usize> = plan.failed.iter().map(|f| f.index).collect();
    failed.sort();
    assert_eq!(failed, vec![0, 1]);
    for f in &plan.failed {
        match &f.error {
            LoadError::MissingRequiredDependency { name } => {
                if f.index == 1 {
                    assert_eq!(name, "ghost");
                } else {
                    assert_eq!(name, "mid");
                }
            }
            LoadError::DependencyCycle => panic!("expected missing dependencies"),
        }
    }
}

#[test]
fn absent_optional_dependency_is_skipped_silently() {
    let descs = vec![desc("solo", PRIORITY_DEFAULT, vec![("ghost", DEP_TYPE_OPTIONAL)])];
    let plan = compute_load_plan(&descs);
    assert_eq!(plan.order, vec![0]);
    assert!(plan.failed.is_empty());
}

#[test]
fn present_optional_dependency_orders_first() {
    let descs = vec![
        desc("user", PRIORITY_FIRST, vec![("helper", DEP_TYPE_OPTIONAL)]),
        desc("helper", PRIORITY_LATER, vec![]),
    ];
    let plan = compute_load_plan(&descs);
    assert_eq!(plan.order, vec![1, 0]);
    assert!(plan.failed.is_empty());
}

#[test]
fn empty_dependency_names_are_ignored() {
    let descs = vec![desc("solo", PRIORITY_DEFAULT, vec![("", DEP_TYPE_REQUIRED)])];
    let plan = compute_load_plan(&descs);
    assert_eq!(plan.order, vec![0]);
    assert!(plan.failed.is_empty());
}

#[test]
fn init_failure_fails_required_dependents_transitively() {
    let descs = vec![
        desc("base", PRIORITY_DEFAULT, vec![]),
        desc("mid", PRIORITY_DEFAULT, vec![("base", DEP_TYPE_REQUIRED)]),
        desc("top", PRIORITY_DEFAULT, vec![("mid", DEP_TYPE_REQUIRED)]),
        desc("free", PRIORITY_DEFAULT, vec![]),
    ];
    let plan = compute_load_plan(&descs);
    assert_eq!(plan.order, vec![0, 1, 2, 3]);
    // base's initializer fails: mid and top fall with it, free still loads.
    let results = vec![false, true, true, true];
    let loaded = apply_init_results(&descs, &plan.order, &results);
    assert_eq!(loaded, vec![3]);
    // All initializers succeed: everything loads, unload reverses.
    let results = vec![true, true, true, true];
    let loaded = apply_init_results(&descs, &plan.order, &results);
    assert_eq!(loaded, vec![0, 1, 2, 3]);
    assert_eq!(unload_order(&loaded), vec![3, 2, 1, 0]);
}

#[test]
fn validator_rejects_abi_mismatch_first() {
    let mut bad = desc("plug", PRIORITY_DEFAULT, vec![]);
    bad.abi_version = ABI_V1 + 1;
    let accepted: Vec<PluginInfo> = Vec::new();
    assert_eq!(validate_descriptor(&bad, &accepted, ABI_V1), Err(ValidateError::AbiMismatch));
}

#[test]
fn validator_rejects_empty_and_duplicate_names() {
    let accepted = vec![desc("taken", PRIORITY_DEFAULT, vec![])];
    let empty = desc("", PRIORITY_DEFAULT, vec![]);
    assert_eq!(validate_descriptor(&empty, &accepted, ABI_V1), Err(ValidateError::EmptyName));
    let dup = desc("taken", PRIORITY_DEFAULT, vec![]);
    assert_eq!(validate_descriptor(&dup, &accepted, ABI_V1), Err(ValidateError::DuplicateName));
    let fresh = desc("fresh", PRIORITY_DEFAULT, vec![]);
    assert_eq!(validate_descriptor(&fresh, &accepted, ABI_V1), Ok(()));
}

#[test]
fn unrecognized_priority_reads_as_default() {
    assert_eq!(normalize_priority(PRIORITY_FIRST), PRIORITY_FIRST);
    assert_eq!(normalize_priority(PRIORITY_DEFAULT), PRIORITY_DEFAULT);
    assert_eq!(normalize_priority(PRIORITY_LATER), PRIORITY_LATER);
    assert_eq!(normalize_priority(7), PRIORITY_DEFAULT);
    assert_eq!(normalize_priority(-1), PRIORITY_DEFAULT);
}

#[test]
fn unrecognized_priority_buckets_as_default_in_the_plan() {
    let mut odd = desc("odd", 9, vec![]);
    odd.priority = 9;
    let descs = vec![
        desc("later", PRIORITY_LATER, vec![]),
        odd,
        desc("first", PRIORITY_FIRST, vec![]),
    ];
    let plan = compute_load_plan(&descs);
    let names = load_order_names(&descs, &plan);
    assert_eq!(
        names,
        vec!["first".to_string(), "odd".to_string(), "later".to_string()]
    );
}

#[test]
fn admission_keeps_discovery_order_and_reports_rejections() {
    let mut bad = desc("bad", PRIORITY_DEFAULT, vec![]);
    bad.abi_version = 99;
    let descs = vec![
        desc("one", PRIORITY_DEFAULT, vec![]),
        bad,
        desc("one", PRIORITY_DEFAULT, vec![]),
        desc("two", PRIORITY_DEFAULT, vec![]),
    ];
    let adm = admit_descriptors(descs, ABI_V1);
    let names: Vec<&str> = adm.accepted.iter().map(|d| d.name.as_str()).collect();
    assert_eq!(names, vec!["one", "two"]);
    assert_eq!(adm.rejected.len(), 2);
    assert_eq!(adm.rejected[0].index, 1);
    assert_eq!(adm.rejected[0].error, ValidateError::AbiMismatch);
    assert_eq!(adm.rejected[1].index, 2);
    assert_eq!(adm.rejected[1].error, ValidateError::DuplicateName);
}
