use cargo_features::crates::{Crate, CrateData, FeatureError};
use cargo_features::document::Document;
use cargo_features::ignore::{ignored_for, parse_ignore_list};
use cargo_features::manifest::{manifest_entry, ManifestEntry};
use cargo_features::prune::{prune_with_outcomes, Pruner};
use cargo_features::selector::{
    letter_style, visible_range, DependencySelectorItem, FeatureSelectorItem, LetterStyle,
    ScrollSelector,
};

fn s(x: &str) -> String {
    x.to_string()
}

fn strings(xs: &[&str]) -> Vec<String> {
    xs.iter().map(|x| x.to_string()).collect()
}

fn data(features: &[(&str, &[&str])], optional: &[&str]) -> CrateData {
    CrateData {
        name: s("dep"),
        version: s("1.2.3"),
        features: features.iter().map(|(k, v)| (s(k), strings(v))).collect(),
        optional_dependencies: strings(optional),
    }
}

fn enabled(c: &Crate) -> Vec<String> {
    c.get_features().into_iter().filter(|(_, on)| *on).map(|(n, _)| n).collect()
}

fn names(c: &Crate) -> Vec<String> {
    c.get_features().into_iter().map(|(n, _)| n).collect()
}

/// Features {default -> [a], a -> [b], c}, default set requested.
fn scenario_crate() -> Crate {
    Crate::new(data(&[("default", &["a"]), ("a", &["b"]), ("c", &[])], &[]), vec![], true)
}

#[test]
fn scenario_a_enable_then_disable() {
    let mut c = scenario_crate();
    assert_eq!(names(&c), strings(&["a", "b", "c"]));
    assert_eq!(enabled(&c), strings(&["a", "b"]));
    assert!(c.uses_default());
    c.enable_feature_usage(&s("c")).unwrap();
    assert_eq!(enabled(&c), strings(&["a", "b", "c"]));
    c.disable_feature_usage(&s("a")).unwrap();
    // Nothing implies `a`, so only `a` itself goes; `b` stays enabled.
    assert_eq!(enabled(&c), strings(&["b", "c"]));
    assert!(!c.uses_default());
}

#[test]
fn scenario_b_prune_with_ignored_feature() {
    let mut c = scenario_crate();
    c.enable_feature_usage(&s("c")).unwrap();
    let accepted = prune_with_outcomes(&mut c, strings(&["c"]), &vec![true, true], false);
    assert_eq!(accepted, strings(&["a", "b"]));
    assert_eq!(enabled(&c), strings(&["c"]));
    match manifest_entry(&c) {
        ManifestEntry::Detailed { version, features, default_features } => {
            assert_eq!(version, "1.2.3");
            assert_eq!(features, strings(&["c"]));
            assert!(!default_features);
        }
        ManifestEntry::Version(_) => panic!("expected a detailed entry"),
    }
}

#[test]
fn scenario_c_all_trials_fail() {
    let mut c = scenario_crate();
    c.enable_feature_usage(&s("c")).unwrap();
    let before = enabled(&c);
    let accepted = prune_with_outcomes(&mut c, vec![], &vec![false, false, false], false);
    assert!(accepted.is_empty());
    assert_eq!(enabled(&c), before);
}

#[test]
fn enable_twice_same_as_once() {
    let mut once = scenario_crate();
    once.enable_feature_usage(&s("c")).unwrap();
    let mut twice = scenario_crate();
    twice.enable_feature_usage(&s("c")).unwrap();
    twice.enable_feature_usage(&s("c")).unwrap();
    assert_eq!(once.get_features(), twice.get_features());
}

#[test]
fn disable_twice_same_as_once() {
    let mut once = scenario_crate();
    once.disable_feature_usage(&s("b")).unwrap();
    let mut twice = scenario_crate();
    twice.disable_feature_usage(&s("b")).unwrap();
    twice.disable_feature_usage(&s("b")).unwrap();
    assert_eq!(once.get_features(), twice.get_features());
    assert!(enabled(&once).is_empty());
}

fn chain() -> Crate {
    Crate::new(data(&[("x", &["y"]), ("y", &["z"]), ("z", &[]), ("w", &[])], &[]), vec![], false)
}

#[test]
fn enable_reaches_transitive_implications() {
    let mut c = chain();
    assert!(enabled(&c).is_empty());
    c.enable_feature_usage(&s("x")).unwrap();
    assert_eq!(enabled(&c), strings(&["x", "y", "z"]));
}

#[test]
fn disable_reaches_transitive_dependents() {
    let mut c = Crate::new(
        data(&[("x", &["y"]), ("y", &["z"]), ("z", &[]), ("w", &[])], &[]),
        strings(&["x", "w"]),
        false,
    );
    assert_eq!(enabled(&c), strings(&["w", "x", "y", "z"]));
    c.disable_feature_usage(&s("z")).unwrap();
    assert_eq!(enabled(&c), strings(&["w"]));
}

#[test]
fn enable_disable_round_trip() {
    let mut c = Crate::new(data(&[("x", &["y"]), ("y", &[]), ("w", &[])], &[]), strings(&["y"]), false);
    let before = c.get_features();
    c.enable_feature_usage(&s("x")).unwrap();
    c.disable_feature_usage(&s("x")).unwrap();
    assert_eq!(c.get_features(), before);
}

#[test]
fn cycle_is_enabled_and_disabled_together() {
    let mut c = Crate::new(data(&[("p", &["q"]), ("q", &["p"])], &[]), vec![], false);
    c.enable_feature_usage(&s("p")).unwrap();
    assert_eq!(enabled(&c), strings(&["p", "q"]));
    c.disable_feature_usage(&s("q")).unwrap();
    assert!(enabled(&c).is_empty());
}

#[test]
fn uses_default_with_extra_features() {
    let mut c = scenario_crate();
    assert!(c.uses_default());
    c.enable_feature_usage(&s("c")).unwrap();
    assert!(c.uses_default());
    c.disable_feature_usage(&s("a")).unwrap();
    assert!(!c.uses_default());
}

#[test]
fn enabled_non_default_drops_defaults_only_when_in_use() {
    let mut c = scenario_crate();
    c.enable_feature_usage(&s("c")).unwrap();
    assert_eq!(c.get_enabled_features(), strings(&["b", "c"]));
    c.disable_feature_usage(&s("a")).unwrap();
    assert_eq!(c.get_enabled_features(), strings(&["b", "c"]));
    c.enable_feature_usage(&s("a")).unwrap();
    c.disable_feature_usage(&s("c")).unwrap();
    assert_eq!(c.get_enabled_features(), strings(&["b"]));
}

#[test]
fn bare_entry_when_only_defaults() {
    let c = Crate::new(data(&[("default", &["a"]), ("a", &[])], &[]), vec![], true);
    match manifest_entry(&c) {
        ManifestEntry::Version(v) => assert_eq!(v, "1.2.3"),
        ManifestEntry::Detailed { .. } => panic!("expected a bare version"),
    }
}

#[test]
fn protected_feature_never_accepted() {
    let mut c = scenario_crate();
    c.enable_feature_usage(&s("c")).unwrap();
    let accepted = prune_with_outcomes(&mut c, strings(&["a", "c"]), &vec![true, true, true], false);
    assert_eq!(accepted, strings(&["b"]));
    assert!(!accepted.contains(&s("a")) && !accepted.contains(&s("c")));
}

#[test]
fn dry_run_keeps_manifest_entry() {
    let mut c = scenario_crate();
    c.enable_feature_usage(&s("c")).unwrap();
    let before = format!("{:?}", manifest_entry(&c));
    let accepted = prune_with_outcomes(&mut c, vec![], &vec![true, true, true], true);
    assert_eq!(accepted, strings(&["a", "b", "c"]));
    assert_eq!(format!("{:?}", manifest_entry(&c)), before);
}

#[test]
fn pruner_steps_restore_baseline() {
    let mut c = scenario_crate();
    c.enable_feature_usage(&s("c")).unwrap();
    let baseline = c.get_features();
    let mut p = Pruner::new(&c, vec![], false);
    assert_eq!(p.trial_total(), 3);
    let mut seen = vec![];
    while p.has_next() {
        let index = p.trial_index();
        let f = p.start_trial(&mut c);
        seen.push((index, f.clone()));
        if f == "b" {
            // disabling `b` takes `a` with it
            assert_eq!(enabled(&c), strings(&["c"]));
        }
        p.record(&mut c, f == "c");
        assert_eq!(c.get_features(), baseline);
    }
    assert_eq!(seen, vec![(1, s("a")), (2, s("b")), (3, s("c"))]);
    assert_eq!(p.get_accepted(), strings(&["c"]));
    assert!(p.finish(&mut c));
    assert_eq!(enabled(&c), strings(&["a", "b"]));
}

#[test]
fn missing_outcomes_count_as_failures() {
    let mut c = scenario_crate();
    let accepted = prune_with_outcomes(&mut c, vec![], &vec![true], false);
    assert_eq!(accepted, strings(&["a"]));
    assert_eq!(enabled(&c), strings(&["b"]));
}

#[test]
fn nothing_to_prune() {
    let mut c = chain();
    let accepted = prune_with_outcomes(&mut c, vec![], &vec![true], false);
    assert!(accepted.is_empty());
    assert!(enabled(&c).is_empty());
}

#[test]
fn display_order_and_foreign_references() {
    let c = Crate::new(
        data(
            &[
                ("default", &["std", "dep:serde"]),
                ("std", &["alloc", "serde/std"]),
                ("alloc", &[]),
                ("zeta", &["dep:log"]),
            ],
            &["serde", "log"],
        ),
        vec![],
        true,
    );
    assert_eq!(names(&c), strings(&["std", "alloc", "log", "serde", "zeta"]));
    assert_eq!(c.get_sub_features(&s("std")), strings(&["alloc"]));
    assert!(c.get_sub_features(&s("zeta")).is_empty());
    assert!(c.get_sub_features(&s("nope")).is_empty());
    assert_eq!(enabled(&c), strings(&["std", "alloc"]));
    // `dep:serde` in the default list is never a feature, so the default set
    // is never fully enabled.
    assert!(!c.uses_default());
    assert!(c.is_default_feature(&s("std")));
    assert!(!c.is_default_feature(&s("alloc")));
    assert_eq!(c.get_features_count(), 5);
    assert!(c.has_features());
    assert_eq!(c.get_name(), "dep");
    assert_eq!(c.get_version(), "1.2.3");
}

#[test]
fn duplicate_names_collapse() {
    let c = Crate::new(data(&[("a", &["b", "b"]), ("b", &[])], &["b"]), vec![], false);
    assert_eq!(names(&c), strings(&["a", "b"]));
}

#[test]
fn empty_crate() {
    let c = Crate::new(data(&[], &[]), vec![], true);
    assert!(!c.has_features());
    assert!(c.uses_default());
    assert!(c.get_enabled_features().is_empty());
    match manifest_entry(&c) {
        ManifestEntry::Version(_) => {}
        ManifestEntry::Detailed { .. } => panic!("expected a bare version"),
    }
}

#[test]
fn unknown_feature_is_an_error() {
    let mut c = scenario_crate();
    let before = c.get_features();
    assert_eq!(c.enable_feature_usage(&s("zz")), Err(FeatureError::UnknownFeature));
    assert_eq!(c.disable_feature_usage(&s("zz")), Err(FeatureError::UnknownFeature));
    assert_eq!(c.get_active_dependent_features(&s("zz")), Err(FeatureError::UnknownFeature));
    assert_eq!(c.get_features(), before);
}

#[test]
fn toggle_by_index() {
    let mut c = scenario_crate();
    assert_eq!(c.toggle_feature_usage(2), Ok(()));
    assert_eq!(enabled(&c), strings(&["a", "b", "c"]));
    assert_eq!(c.toggle_feature_usage(1), Ok(()));
    assert_eq!(enabled(&c), strings(&["c"]));
    assert_eq!(c.toggle_feature_usage(3), Err(FeatureError::StaleSelection));
}

#[test]
fn active_dependents_lock_a_feature() {
    let mut c = scenario_crate();
    assert_eq!(c.get_active_dependent_features(&s("b")), Ok(strings(&["a"])));
    c.disable_feature_usage(&s("a")).unwrap();
    assert_eq!(c.get_active_dependent_features(&s("b")), Ok(vec![]));
}

#[test]
fn scroll_wraps_both_ways() {
    let mut sel = ScrollSelector { selected_index: 0, data: vec![10, 20, 30] };
    sel.shift(-1);
    assert_eq!(sel.selected_index, 2);
    assert_eq!(sel.get_selected(), Some(&30));
    sel.shift(1);
    assert_eq!(sel.selected_index, 0);
    sel.shift(7);
    assert_eq!(sel.selected_index, 1);
    sel.shift(-7);
    assert_eq!(sel.selected_index, 0);
    sel.shift(isize::MIN);
    assert_eq!(sel.selected_index, 1);
    assert!(sel.has_data());
}

#[test]
fn scroll_on_empty_list() {
    let mut sel: ScrollSelector<u8> = ScrollSelector { selected_index: 4, data: vec![] };
    assert_eq!(sel.get_selected(), None);
    sel.shift(3);
    assert_eq!(sel.selected_index, 0);
    assert!(!sel.has_data());
}

#[test]
fn window_keeps_selection_in_view() {
    assert_eq!(visible_range(0, 100, 10, 0), (0, 9));
    assert_eq!(visible_range(50, 100, 10, 0), (46, 55));
    assert_eq!(visible_range(99, 100, 10, 0), (91, 100));
    assert_eq!(visible_range(99, 100, 10, 1), (92, 100));
    assert_eq!(visible_range(2, 3, 10, 0), (0, 3));
}

#[test]
fn letter_styles() {
    assert_eq!(letter_style(true, true), LetterStyle::Red);
    assert_eq!(letter_style(true, false), LetterStyle::Plain);
    assert_eq!(letter_style(false, true), LetterStyle::DarkRed);
    assert_eq!(letter_style(false, false), LetterStyle::LightGray);
}

#[test]
fn selector_items_keep_names() {
    let item = FeatureSelectorItem::new(&s("serde"), vec![]);
    assert_eq!(item.name(), "serde");
    assert_eq!(item.display_name(), "serde");
    let hit = FeatureSelectorItem::new(&s("serde"), vec![0]);
    assert_eq!(hit.name(), "serde");
    assert!(hit.display_name().contains("erde"));
    let dep = DependencySelectorItem::new(&scenario_crate(), vec![]);
    assert_eq!(dep.name(), "dep");
    assert_eq!(dep.display_name(), "dep");
}

#[test]
fn ignore_list_parsing() {
    let ok = parse_ignore_list(vec![
        (s("dep"), Some(vec![Some(s("c")), None, Some(s("d"))])),
        (s("other"), Some(vec![])),
    ])
    .unwrap();
    assert_eq!(ignored_for(&ok, &s("dep")), strings(&["c", "d"]));
    assert!(ignored_for(&ok, &s("other")).is_empty());
    assert!(ignored_for(&ok, &s("missing")).is_empty());
    let bad = parse_ignore_list(vec![(s("dep"), Some(vec![])), (s("x"), None)]);
    assert_eq!(bad.err(), Some(FeatureError::IgnoreListMalformed));
}

#[test]
fn document_access() {
    assert_eq!(Document::new(None).err(), Some(FeatureError::NoDependenciesFound));
    let doc = Document::new(Some(vec![scenario_crate()])).ok().unwrap();
    assert_eq!(doc.get_deps().len(), 1);
    assert_eq!(doc.get_dep(0).ok().unwrap().get_name(), "dep");
    assert_eq!(doc.get_dep(1).err(), Some(FeatureError::StaleSelection));
    let (name, entry) = doc.write_dep(0).ok().unwrap();
    assert_eq!(name, "dep");
    assert!(matches!(entry, ManifestEntry::Detailed { .. }));
    assert_eq!(doc.write_dep(3).err(), Some(FeatureError::StaleSelection));
}

#[test]
fn highlights_past_the_end_leave_names_plain() {
    let item = FeatureSelectorItem::new(&s("serde"), vec![5, 9]);
    assert_eq!(item.display_name(), "serde");
    let dep = DependencySelectorItem::new(&scenario_crate(), vec![3]);
    assert_eq!(dep.display_name(), "dep");
}

#[test]
fn write_dep_contents() {
    let bare = Crate::new(data(&[("default", &["a"]), ("a", &[])], &[]), vec![], true);
    let mut table = scenario_crate();
    table.enable_feature_usage(&s("c")).unwrap();
    let doc = Document::new(Some(vec![bare, table])).ok().unwrap();
    match doc.write_dep(0).ok().unwrap() {
        (name, ManifestEntry::Version(v)) => {
            assert_eq!(name, "dep");
            assert_eq!(v, "1.2.3");
        }
        _ => panic!("expected a bare version"),
    }
    match doc.write_dep(1).ok().unwrap().1 {
        ManifestEntry::Detailed { version, features, default_features } => {
            assert_eq!(version, "1.2.3");
            assert_eq!(features, strings(&["b", "c"]));
            assert!(default_features);
        }
        ManifestEntry::Version(_) => panic!("expected a detailed entry"),
    }
}
