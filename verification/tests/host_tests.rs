use plugin_host::descriptor::Dependency;
use plugin_host::descriptor::PluginInfo;
use plugin_host::host::discover;
use plugin_host::host::PluginHost;
use plugin_host::ABI_V1;
use plugin_host::DEP_TYPE_REQUIRED;
use plugin_host::PRIORITY_DEFAULT;

#[test]
fn duplicate_subscription_delivers_twice_in_registration_order() {
    let mut host = PluginHost::new(16);
    host.register_event(1, "tick".to_string(), 7);
    host.register_event(2, "tick".to_string(), 8);
    host.register_event(1, "tick".to_string(), 7);
    let snapshot = host.send_event(&"tick".to_string());
    assert_eq!(snapshot, vec![7, 8, 7]);
}

#[test]
fn publish_delivers_only_matching_event() {
    let mut host = PluginHost::new(16);
    host.register_event(1, "tick".to_string(), 7);
    host.register_event(1, "tock".to_string(), 8);
    assert_eq!(host.send_event(&"tick".to_string()), vec![7]);
    assert_eq!(host.send_event(&"tock".to_string()), vec![8]);
    assert_eq!(host.send_event(&"none".to_string()), Vec::<u64>::new());
}

#[test]
fn unsubscribe_mid_publish_spares_the_snapshot_but_not_the_next_publish() {
    let mut host = PluginHost::new(16);
    host.register_event(1, "tick".to_string(), 7);
    host.register_event(2, "tick".to_string(), 8);
    let snapshot = host.send_event(&"tick".to_string());
    assert_eq!(snapshot, vec![7, 8]);
    // A subscriber's callback runs while the host walks the snapshot; if it
    // unsubscribes callback 8 here, the snapshot in hand is unchanged...
    host.unregister_event(8);
    assert_eq!(snapshot, vec![7, 8]);
    // ...but the next publish no longer delivers to it.
    assert_eq!(host.send_event(&"tick".to_string()), vec![7]);
}

#[test]
fn unsubscribe_removes_every_subscription_of_the_callback() {
    let mut host = PluginHost::new(16);
    host.register_event(1, "a".to_string(), 7);
    host.register_event(1, "b".to_string(), 7);
    host.register_event(1, "a".to_string(), 9);
    host.unregister_event(7);
    assert_eq!(host.send_event(&"a".to_string()), vec![9]);
    assert_eq!(host.send_event(&"b".to_string()), Vec::<u64>::new());
    // Unsubscribing a callback with no subscriptions is a quiet no-op.
    host.unregister_event(7);
    assert_eq!(host.send_event(&"a".to_string()), vec![9]);
}

#[test]
fn repeating_timer_fires_per_elapse_until_cancelled() {
    let mut host = PluginHost::new(16);
    let handle = host.set_timer(1, 100, 42, true);
    assert_ne!(handle, 0);
    assert_eq!(host.advance_timers(100), vec![42]);
    assert_eq!(host.advance_timers(150), vec![42]);
    assert_eq!(host.advance_timers(100), vec![42]);
    assert!(host.cancel_timer(handle));
    assert_eq!(host.advance_timers(100), Vec::<u64>::new());
}

#[test]
fn one_shot_timer_retires_after_firing() {
    let mut host = PluginHost::new(16);
    let handle = host.set_timer(1, 50, 9, false);
    assert_eq!(host.advance_timers(49), Vec::<u64>::new());
    assert_eq!(host.advance_timers(1), vec![9]);
    assert_eq!(host.advance_timers(500), Vec::<u64>::new());
    // The fired one-shot timer is gone: cancelling reports not-found.
    assert!(!host.cancel_timer(handle));
}

#[test]
fn cancel_timer_is_idempotent() {
    let mut host = PluginHost::new(16);
    let handle = host.set_timer(1, 100, 9, true);
    assert!(host.cancel_timer(handle));
    assert!(!host.cancel_timer(handle));
}

#[test]
fn timer_handles_are_distinct_and_nonzero() {
    let mut host = PluginHost::new(16);
    let h1 = host.set_timer(1, 10, 1, false);
    let h2 = host.set_timer(1, 10, 2, false);
    let h3 = host.set_timer(2, 10, 3, true);
    assert_ne!(h1, 0);
    assert_ne!(h2, 0);
    assert_ne!(h3, 0);
    assert_ne!(h1, h2);
    assert_ne!(h2, h3);
    assert_ne!(h1, h3);
}

#[test]
fn timers_due_together_fire_in_creation_order() {
    let mut host = PluginHost::new(16);
    host.set_timer(1, 100, 5, false);
    host.set_timer(1, 50, 6, false);
    host.set_timer(1, 100, 7, false);
    assert_eq!(host.advance_timers(100), vec![5, 6, 7]);
}

#[test]
fn set_data_overwrites_and_delete_removes() {
    let mut host = PluginHost::new(16);
    assert!(host.set_data("k".to_string(), "v1".to_string()));
    assert!(host.set_data("k".to_string(), "v2".to_string()));
    assert_eq!(host.get_data(&"k".to_string()), Some("v2".to_string()));
    assert!(host.delete_data(&"k".to_string()));
    assert!(!host.has_data(&"k".to_string()));
    assert_eq!(host.get_data(&"k".to_string()), None);
    // Deleting again reports that nothing was there.
    assert!(!host.delete_data(&"k".to_string()));
}

#[test]
fn store_capacity_limits_new_keys_but_never_overwrites() {
    let mut host = PluginHost::new(1);
    assert!(host.set_data("k1".to_string(), "a".to_string()));
    assert!(!host.set_data("k2".to_string(), "b".to_string()));
    assert!(host.set_data("k1".to_string(), "c".to_string()));
    assert_eq!(host.get_data(&"k1".to_string()), Some("c".to_string()));
    assert!(!host.has_data(&"k2".to_string()));
    // Freeing the one slot admits a new key again.
    assert!(host.delete_data(&"k1".to_string()));
    assert!(host.set_data("k2".to_string(), "b".to_string()));
}

#[test]
fn unload_plugin_drops_its_subscriptions_and_timers_only() {
    let mut host = PluginHost::new(16);
    host.register_event(1, "tick".to_string(), 7);
    host.register_event(2, "tick".to_string(), 8);
    let h1 = host.set_timer(1, 100, 7, true);
    let h2 = host.set_timer(2, 100, 8, true);
    host.unload_plugin(1);
    assert_eq!(host.send_event(&"tick".to_string()), vec![8]);
    assert_eq!(host.advance_timers(100), vec![8]);
    assert!(!host.cancel_timer(h1));
    assert!(host.cancel_timer(h2));
}

#[test]
fn unloading_keeps_shared_data() {
    let mut host = PluginHost::new(16);
    assert!(host.set_data("shared".to_string(), "value".to_string()));
    host.unload_plugin(1);
    assert_eq!(host.get_data(&"shared".to_string()), Some("value".to_string()));
}

#[test]
fn abi_mismatch_is_rejected_and_never_planned() {
    let good = PluginInfo {
        name: "good".to_string(),
        version: "1.0.0".to_string(),
        abi_version: ABI_V1,
        priority: PRIORITY_DEFAULT,
        dependencies: Vec::new(),
    };
    let bad = PluginInfo {
        name: "bad".to_string(),
        version: "1.0.0".to_string(),
        abi_version: ABI_V1 + 1,
        priority: PRIORITY_DEFAULT,
        dependencies: vec![Dependency { name: "good".to_string(), kind: DEP_TYPE_REQUIRED }],
    };
    let discovery = discover(vec![bad, good], ABI_V1);
    assert_eq!(discovery.admission.accepted.len(), 1);
    assert_eq!(discovery.admission.accepted[0].name, "good");
    assert_eq!(discovery.admission.rejected.len(), 1);
    assert_eq!(discovery.admission.rejected[0].index, 0);
    assert_eq!(discovery.plan.order, vec![0]);
    for &i in &discovery.plan.order {
        assert_eq!(discovery.admission.accepted[i].abi_version, ABI_V1);
    }
}

#[test]
fn rejected_dependency_target_counts_as_missing() {
    let bad = PluginInfo {
        name: "bad".to_string(),
        version: "1.0.0".to_string(),
        abi_version: ABI_V1 + 1,
        priority: PRIORITY_DEFAULT,
        dependencies: Vec::new(),
    };
    let needy = PluginInfo {
        name: "needy".to_string(),
        version: "1.0.0".to_string(),
        abi_version: ABI_V1,
        priority: PRIORITY_DEFAULT,
        dependencies: vec![Dependency { name: "bad".to_string(), kind: DEP_TYPE_REQUIRED }],
    };
    let discovery = discover(vec![bad, needy], ABI_V1);
    // "bad" never enters the candidate set, so "needy" misses its
    // dependency and nothing loads.
    assert!(discovery.plan.order.is_empty());
    assert_eq!(discovery.plan.failed.len(), 1);
    assert_eq!(discovery.plan.failed[0].index, 0);
}

#[test]
fn zero_delay_timer_fires_on_the_next_advance() {
    let mut host = PluginHost::new(16);
    host.set_timer(1, 0, 3, false);
    assert_eq!(host.advance_timers(0), vec![3]);
    assert_eq!(host.advance_timers(0), Vec::<u64>::new());
}

#[test]
fn clock_saturates_instead_of_wrapping() {
    let mut host = PluginHost::new(16);
    host.advance_timers(u64::MAX);
    // The clock pins at its maximum; a timer set now is due immediately and
    // still fires rather than wrapping past the clock.
    host.set_timer(1, 10, 4, false);
    assert_eq!(host.advance_timers(u64::MAX), vec![4]);
}
