use minions_core::profile::{EditStyle, ModelProfile, ProfileStore, ToolChannel};

#[test]
fn an_unmeasured_model_is_assumed_to_be_the_weakest_one_that_works() {
    let p = ModelProfile::unmeasured("something-new");
    assert_eq!(p.channel, ToolChannel::TextOnly);
    assert_eq!(p.edit_style, EditStyle::Replacement);
    assert!(!p.parallel_calls);
    assert!(!p.holds_format);
    assert!(!p.is_measured());
    assert!(!p.send_schemas(), "schemas must not be sent to an unproven channel");
}

#[test]
fn a_model_that_loses_the_format_gets_more_attempts() {
    let mut p = ModelProfile::unmeasured("m");
    assert_eq!(p.document_attempts(), 5);
    p.holds_format = true;
    assert_eq!(p.document_attempts(), 3);
}

#[test]
fn the_effective_profile_falls_back_without_pretending_to_be_measured() {
    let store = ProfileStore::default();
    let p = store.effective("never-seen");
    assert!(!p.is_measured());
    assert_eq!(p.model, "never-seen");
}

#[test]
fn putting_a_profile_replaces_the_previous_one() {
    let mut store = ProfileStore::default();
    let mut a = ModelProfile::unmeasured("m");
    a.measured_at = "yesterday".into();
    store.put(a);
    let mut b = ModelProfile::unmeasured("m");
    b.measured_at = "today".into();
    b.holds_format = true;
    store.put(b);
    assert_eq!(store.profiles.len(), 1, "a remeasurement must replace, not accumulate");
    assert!(store.get("m").unwrap().holds_format);
}

#[test]
fn putting_a_profile_leaves_the_others_as_they_were() {
    let mut store = ProfileStore::default();
    for (model, when) in [("a", "1"), ("m", "2"), ("b", "3")] {
        let mut p = ModelProfile::unmeasured(model);
        p.measured_at = when.into();
        store.put(p);
    }
    let mut again = ModelProfile::unmeasured("m");
    again.measured_at = "4".into();
    store.put(again);
    let order: Vec<(&str, &str)> =
        store.profiles.iter().map(|p| (p.model.as_str(), p.measured_at.as_str())).collect();
    assert_eq!(order, vec![("a", "1"), ("b", "3"), ("m", "4")]);
}
