use rollout_sessions::heads::HeadAccumulator;
use rollout_sessions::runtime::UnixLocalExecRuntime;
use rollout_sessions::runtime::WindowsLocalExecRuntime;
use rollout_sessions::config_edit::effective_profile;
use rollout_sessions::config_edit::override_segments;

#[test]
fn head_collects_json_and_skips_garbage() {
    let mut acc = HeadAccumulator::new();
    assert!(acc.wants_more());
    acc.push_line("{\"record\":1}");
    acc.push_line("");
    acc.push_line("   ");
    acc.push_line("not json at all");
    acc.push_line("[1, 2, 3]");
    let head = acc.finish();
    assert_eq!(head.len(), 2);
    assert_eq!(head[0], serde_json::from_str::<serde_json::Value>("{\"record\":1}").unwrap());
    assert_eq!(head[1], serde_json::from_str::<serde_json::Value>("[1,2,3]").unwrap());
}

#[test]
fn head_stops_at_five_records() {
    let mut acc = HeadAccumulator::new();
    let mut fed: usize = 0;
    while acc.wants_more() {
        acc.push_line(&format!("{{\"n\":{fed}}}"));
        fed += 1;
    }
    assert_eq!(fed, 5);
    acc.push_line("{\"n\":99}");
    let head = acc.finish();
    assert_eq!(head.len(), 5);
    assert_eq!(head[4], serde_json::from_str::<serde_json::Value>("{\"n\":4}").unwrap());
}

#[test]
fn unix_runtime_records_group_or_falls_back_to_pid() {
    let mut rt = UnixLocalExecRuntime::new();
    assert!(rt.pgid.is_none());
    rt.record_child(1234, 999);
    assert_eq!(rt.pgid, Some(999));
    rt.record_child(1234, -1);
    assert_eq!(rt.pgid, Some(1234));
    rt.record_child(4321, 0);
    assert_eq!(rt.pgid, Some(4321));
}

#[test]
fn unix_runtime_clear_and_interrupt() {
    let mut rt = UnixLocalExecRuntime::new();
    rt.record_child(77, 77);
    rt.clear();
    assert!(rt.pgid.is_none());
    rt.record_child(88, 88);
    assert_eq!(rt.interrupt(), Some(88));
    assert!(rt.pgid.is_none());
    assert_eq!(rt.interrupt(), None);
}

#[test]
fn windows_runtime_is_a_no_op() {
    let mut rt = WindowsLocalExecRuntime::new();
    rt.record_child(5, 5);
    rt.clear();
    assert_eq!(rt.interrupt(), None);
}

#[test]
fn effective_profile_prefers_explicit_override() {
    assert_eq!(
        effective_profile(Some("o3".to_string()), Some("other".to_string())),
        Some("o3".to_string())
    );
    assert_eq!(
        effective_profile(None, Some("from-config".to_string())),
        Some("from-config".to_string())
    );
    assert_eq!(effective_profile(None, None), None);
}

#[test]
fn override_segments_roots_at_profile_table() {
    let name = "my.team name".to_string();
    let segs = vec!["model".to_string()];
    let rooted = override_segments(Some(&name), segs);
    assert_eq!(rooted, vec!["profiles".to_string(), name.clone(), "model".to_string()]);

    let already = vec!["profiles".to_string(), "p1".to_string(), "model".to_string()];
    assert_eq!(override_segments(Some(&name), already.clone()), already);

    let plain = vec!["model_reasoning_effort".to_string()];
    assert_eq!(override_segments(None, plain.clone()), plain);
}
