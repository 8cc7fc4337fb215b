use uptime_kuma_rs::model::{status_from_code, status_to_i64, MonitorStatus};
use uptime_kuma_rs::status_page::{
    extract_beats, extract_uptime_24h, map_monitors, status_page_config_url,
    status_page_heartbeat_url, uptime_24h_key_id, BeatDto, GroupDto, HeartbeatDto, MonitorDto,
    StatusPageConfigDto,
};
use uptime_kuma_rs::text::{i64_to_string, parse_i64};
use uptime_kuma_rs::time::parse_kuma_time;

fn beat(status: u8, ping_ms: Option<u32>, time: &str) -> BeatDto {
    BeatDto { status, ping_ms, time: time.to_string() }
}

fn monitor(id: i64, name: &str) -> MonitorDto {
    MonitorDto { id, name: name.to_string() }
}

/// The status-page configuration of the sanitized fixture: one group, five monitors.
fn fixture_config() -> StatusPageConfigDto {
    StatusPageConfigDto {
        public_group_list: vec![GroupDto {
            name: "Servizi".to_string(),
            monitor_list: vec![
                monitor(1, "service-a"),
                monitor(2, "service-b"),
                monitor(3, "service-c"),
                monitor(4, "service-d"),
                monitor(5, "service-e"),
            ],
        }],
    }
}

/// The heartbeats of the sanitized fixture: ids 1 (2 beats), 2 (2), 3 (1), 5 (1); id 4 has
/// none. Pings are the reported latencies rounded to whole milliseconds.
fn fixture_heartbeat() -> HeartbeatDto {
    HeartbeatDto {
        heartbeat_list: vec![
            (
                "1".to_string(),
                vec![
                    beat(1, Some(5), "2026-06-28 15:58:49.191"),
                    beat(1, Some(7), "2026-06-28 15:59:49.191"),
                ],
            ),
            (
                "2".to_string(),
                vec![
                    beat(1, Some(12), "2026-06-28 15:58:50.004"),
                    beat(0, None, "2026-06-28 15:59:50.004"),
                ],
            ),
            ("3".to_string(), vec![beat(3, None, "2026-06-28 15:59:51.500")]),
            ("5".to_string(), vec![beat(2, None, "2026-06-28 15:59:52.750")]),
        ],
    }
}

/// The `uptimeList` of the sanitized fixture.
fn fixture_uptime_list() -> Vec<(String, f64)> {
    vec![
        ("1_24".to_string(), 1.0),
        ("2_24".to_string(), 0.98),
        ("3_24".to_string(), 1.0),
        ("5_24".to_string(), 0.5),
    ]
}

#[test]
fn parses_kuma_utc_time() {
    let t = parse_kuma_time("2026-06-28 15:59:49.191").unwrap();
    let dt = chrono::DateTime::from_timestamp(t.secs, t.nanos).unwrap();
    assert_eq!(dt.to_rfc3339(), "2026-06-28T15:59:49.191+00:00");
}

#[test]
fn rejects_bad_time() {
    assert!(parse_kuma_time("not a time").is_none());
}

#[test]
fn extracts_beats_from_fixture() {
    let heartbeat = fixture_heartbeat();
    let beats = extract_beats(&heartbeat);
    assert_eq!(beats.len(), 6); // ids 1(2) + 2(2) + 3(1) + 5(1)
    let m1: Vec<_> = beats.iter().filter(|b| b.monitor_id == 1).collect();
    assert_eq!(m1.len(), 2);
    assert!(m1.iter().any(|b| b.status == MonitorStatus::Up && b.ping_ms == Some(7)));
}

#[test]
fn extracts_uptime_24h_from_fixture() {
    let up = extract_uptime_24h(&fixture_uptime_list());
    assert_eq!(up.len(), 4);
    assert_eq!(up.get(&2).copied(), Some(0.98));
}

#[test]
fn maps_status_latency_and_group() {
    let monitors = map_monitors(&fixture_config(), &fixture_heartbeat());
    let by_id = |id: i64| monitors.iter().find(|m| m.id == id).expect("monitor present");

    assert_eq!(monitors.len(), 5);

    // group passed through from publicGroupList
    assert_eq!(by_id(1).group.as_deref(), Some("Servizi"));

    // up: status + latency from the LAST beat (ascending order)
    assert_eq!(by_id(1).status, MonitorStatus::Up);
    assert_eq!(by_id(1).latency_ms, Some(7));

    // down: no latency
    assert_eq!(by_id(2).status, MonitorStatus::Down);
    assert_eq!(by_id(2).latency_ms, None);

    // maintenance (status 3)
    assert_eq!(by_id(3).status, MonitorStatus::Maintenance);
    assert_eq!(by_id(3).latency_ms, None);

    // explicit pending (status 2)
    assert_eq!(by_id(5).status, MonitorStatus::Pending);
    assert_eq!(by_id(5).latency_ms, None);

    // in config but missing from heartbeat -> pending, no latency
    assert_eq!(by_id(4).status, MonitorStatus::Pending);
    assert_eq!(by_id(4).latency_ms, None);
}

#[test]
fn maps_monitors_in_group_order_across_groups() {
    let config = StatusPageConfigDto {
        public_group_list: vec![
            GroupDto { name: "Web".to_string(), monitor_list: vec![monitor(9, "site")] },
            GroupDto { name: "Empty".to_string(), monitor_list: vec![] },
            GroupDto {
                name: "Infra".to_string(),
                monitor_list: vec![monitor(2, "db"), monitor(1, "dns")],
            },
        ],
    };
    let monitors = map_monitors(&config, &fixture_heartbeat());
    let ids: Vec<i64> = monitors.iter().map(|m| m.id).collect();
    assert_eq!(ids, vec![9, 2, 1]);
    assert_eq!(monitors[0].group.as_deref(), Some("Web"));
    assert_eq!(monitors[0].name, "site");
    assert_eq!(monitors[0].status, MonitorStatus::Pending);
    assert_eq!(monitors[2].group.as_deref(), Some("Infra"));
    assert_eq!(monitors[2].latency_ms, Some(7));
}

#[test]
fn heartbeat_key_must_be_the_exact_decimal_id() {
    // "01" is not the key of monitor 1: the lookup compares the decimal rendering.
    let heartbeat = HeartbeatDto {
        heartbeat_list: vec![("01".to_string(), vec![beat(1, Some(3), "2026-06-28 15:59:49")])],
    };
    let monitors = map_monitors(&fixture_config(), &heartbeat);
    assert_eq!(monitors[0].status, MonitorStatus::Pending);
    // ...while the beat itself is still extracted under id 1.
    let beats = extract_beats(&heartbeat);
    assert_eq!(beats.len(), 1);
    assert_eq!(beats[0].monitor_id, 1);
}

#[test]
fn up_without_ping_has_no_latency_and_empty_list_is_pending() {
    let heartbeat = HeartbeatDto {
        heartbeat_list: vec![
            ("1".to_string(), vec![beat(1, None, "2026-06-28 15:59:49")]),
            ("2".to_string(), vec![]),
        ],
    };
    let monitors = map_monitors(&fixture_config(), &heartbeat);
    assert_eq!(monitors[0].status, MonitorStatus::Up);
    assert_eq!(monitors[0].latency_ms, None);
    assert_eq!(monitors[1].status, MonitorStatus::Pending);
}

#[test]
fn extract_beats_skips_bad_keys_and_bad_times() {
    let heartbeat = HeartbeatDto {
        heartbeat_list: vec![
            ("abc".to_string(), vec![beat(1, Some(1), "2026-06-28 15:59:49")]),
            (
                "7".to_string(),
                vec![
                    beat(0, None, "yesterday"),
                    beat(9, Some(4), "2026-06-28 16:00:00.5"),
                ],
            ),
        ],
    };
    let beats = extract_beats(&heartbeat);
    assert_eq!(beats.len(), 1);
    assert_eq!(beats[0].monitor_id, 7);
    // unknown codes read as pending
    assert_eq!(beats[0].status, MonitorStatus::Pending);
    assert_eq!(beats[0].ping_ms, Some(4));
    assert_eq!(beats[0].time.nanos, 500_000_000);
}

#[test]
fn uptime_keys_and_later_keys_win() {
    assert_eq!(uptime_24h_key_id("12_24"), Some(12));
    assert_eq!(uptime_24h_key_id("-3_24"), Some(-3));
    assert_eq!(uptime_24h_key_id("12_720"), None);
    assert_eq!(uptime_24h_key_id("_24"), None);
    assert_eq!(uptime_24h_key_id("x_24"), None);
    let list = vec![
        ("4_24".to_string(), 1u32),
        ("4_720".to_string(), 2u32),
        ("+4_24".to_string(), 3u32),
        ("8_24".to_string(), 4u32),
    ];
    let up = extract_uptime_24h(&list);
    assert_eq!(up, std::collections::HashMap::from([(4, 3), (8, 4)]));
}

#[test]
fn status_codes_round_trip() {
    assert_eq!(status_from_code(0), MonitorStatus::Down);
    assert_eq!(status_from_code(1), MonitorStatus::Up);
    assert_eq!(status_from_code(2), MonitorStatus::Pending);
    assert_eq!(status_from_code(3), MonitorStatus::Maintenance);
    assert_eq!(status_from_code(200), MonitorStatus::Pending);
    for s in [MonitorStatus::Up, MonitorStatus::Down, MonitorStatus::Pending, MonitorStatus::Maintenance] {
        assert_eq!(status_from_code(status_to_i64(s) as u8), s);
    }
    assert_eq!(status_to_i64(MonitorStatus::Down), 0);
    assert_eq!(status_to_i64(MonitorStatus::Maintenance), 3);
}

#[test]
fn decimal_keys_round_trip() {
    for x in [0i64, 7, -42, i64::MAX, i64::MIN] {
        assert_eq!(parse_i64(&i64_to_string(x)), Some(x));
    }
    assert_eq!(i64_to_string(-42), "-42");
    assert_eq!(parse_i64("+5"), Some(5));
    assert_eq!(parse_i64("007"), Some(7));
    assert_eq!(parse_i64("-"), None);
    assert_eq!(parse_i64(""), None);
    assert_eq!(parse_i64(" 5"), None);
    assert_eq!(parse_i64("9223372036854775808"), None);
}

#[test]
fn status_page_urls() {
    assert_eq!(
        status_page_config_url("https://uptime.example.com", "homelab"),
        "https://uptime.example.com/api/status-page/homelab"
    );
    assert_eq!(
        status_page_heartbeat_url("https://uptime.example.com", "homelab"),
        "https://uptime.example.com/api/status-page/heartbeat/homelab"
    );
}

#[test]
fn latency_only_while_up_even_when_other_beats_carry_a_ping() {
    let config = StatusPageConfigDto {
        public_group_list: vec![GroupDto {
            name: "g".to_string(),
            monitor_list: vec![monitor(1, "down"), monitor(2, "maintenance"), monitor(3, "pending"), monitor(4, "up")],
        }],
    };
    let heartbeat = HeartbeatDto {
        heartbeat_list: vec![
            ("1".to_string(), vec![beat(1, Some(3), "2026-06-28 15:58:49.191"), beat(0, Some(40), "2026-06-28 15:59:49.191")]),
            ("2".to_string(), vec![beat(3, Some(41), "2026-06-28 15:59:49.191")]),
            ("3".to_string(), vec![beat(2, Some(42), "2026-06-28 15:59:49.191")]),
            ("4".to_string(), vec![beat(0, Some(1), "2026-06-28 15:58:49.191"), beat(1, Some(43), "2026-06-28 15:59:49.191")]),
        ],
    };
    let monitors = map_monitors(&config, &heartbeat);
    assert_eq!(monitors.len(), 4);
    assert_eq!((monitors[0].status, monitors[0].latency_ms), (MonitorStatus::Down, None));
    assert_eq!((monitors[1].status, monitors[1].latency_ms), (MonitorStatus::Maintenance, None));
    assert_eq!((monitors[2].status, monitors[2].latency_ms), (MonitorStatus::Pending, None));
    assert_eq!((monitors[3].status, monitors[3].latency_ms), (MonitorStatus::Up, Some(43)));
}

#[test]
fn decimal_text_agrees_with_std() {
    let inputs = [
        "0", "-0", "+0", "12", "-9223372036854775808", "-9223372036854775809", "9223372036854775807",
        "99999999999999999999999999999", "-99999999999999999999999", "+", "+-1", "1a", "١٢", "12 ",
        "00000000000000000000000001",
    ];
    for s in inputs {
        assert_eq!(parse_i64(s), s.parse::<i64>().ok(), "{s}");
    }
    for x in [0i64, 1, 9, 10, 99, 100, -1, -10, 1_234_567_890, i64::MAX, i64::MIN, i64::MIN + 1] {
        assert_eq!(i64_to_string(x), x.to_string());
    }
}
