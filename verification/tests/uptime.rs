use std::collections::HashMap;

use uptime_kuma_rs::uptime::build_uptime;

#[test]
fn uptime_figures_per_monitor_with_zero_on_failure() {
    let ids = vec![1i64, 2, 3];
    let day = HashMap::from([(3i64, 0.5f64), (1, 1.0)]);
    let week = vec![Some((0.9f64, 0.4f64)), None, Some((1.0, 1.0))];
    let month = vec![None, Some((0.8f64, 0.1f64)), Some((0.95, 0.3))];
    let out = build_uptime(&ids, &day, &week, &month, 0.0);
    assert_eq!(out.len(), 3);
    let rows: Vec<(i64, f64, f64, f64, f64, f64)> = out
        .iter()
        .map(|f| (f.monitor_id, f.uptime_24h, f.uptime_7d, f.coverage_7d, f.uptime_30d, f.coverage_30d))
        .collect();
    assert_eq!(
        rows,
        vec![
            (1, 1.0, 0.9, 0.4, 0.0, 0.0),
            // no 24h figure and a failed week query: zeros
            (2, 0.0, 0.0, 0.0, 0.8, 0.1),
            (3, 0.5, 1.0, 1.0, 0.95, 0.3),
        ]
    );
    assert!(build_uptime(&Vec::new(), &day, &Vec::new(), &Vec::new(), 0.0).is_empty());
}
