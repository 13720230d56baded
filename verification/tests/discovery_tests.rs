use service_catalog::discovery::{
    classify_service, contains_any, count_running, discovered_entry, discovery_candidates,
    group_other, group_sync, group_system, is_positive_http_signal, parse_listen_ports,
    parse_port, parse_units, ports_for_unit, probe_error_indicates_listener, protocol_from_probes,
    select_primary_port, unit_key,
};
use service_catalog::merge::{merge_services, merge_single};
use service_catalog::models::{
    DiscoveryStatusInfo, ServiceEntry, ServiceProtocol, ServiceSource, ServiceStatus,
};

const T0: i64 = 1_700_000_000_000;
const T1: i64 = 1_700_000_060_000;

fn base_service() -> ServiceEntry {
    ServiceEntry {
        id: "nginx-service".to_string(),
        service_name: "nginx.service".to_string(),
        display_name: "Nginx".to_string(),
        description: None,
        host: "server.local".to_string(),
        port: Some(80),
        protocol: ServiceProtocol::Http,
        path: None,
        url: None,
        status: ServiceStatus::Running,
        group: Some("proxy".to_string()),
        tags: vec!["gateway".to_string()],
        icon: Some("🌐".to_string()),
        hidden: false,
        favorite: false,
        source: ServiceSource::Manual,
        locked_fields: vec!["display_name".to_string(), "port".to_string()],
        last_seen_at: None,
        updated_at: T0,
    }
}

#[test]
fn merge_respects_locked_fields() {
    let existing = base_service();
    let mut discovered = base_service();
    discovered.display_name = "Auto Nginx".to_string();
    discovered.port = Some(8080);
    discovered.status = ServiceStatus::Stopped;
    discovered.source = ServiceSource::Auto;

    let (merged, summary) =
        merge_services(&vec![existing], &vec![discovered], DiscoveryStatusInfo::default(), T1);
    let item = merged.first().expect("service should exist");
    assert_eq!(item.display_name, "Nginx");
    assert_eq!(item.port, Some(80));
    assert_eq!(item.status, ServiceStatus::Stopped);
    assert_eq!(summary.updated, 1);
}

#[test]
fn merge_respects_locked_hidden_and_favorite() {
    let mut existing = base_service();
    existing.hidden = false;
    existing.favorite = true;
    existing.locked_fields.push("hidden".to_string());
    existing.locked_fields.push("favorite".to_string());

    let mut discovered = base_service();
    discovered.hidden = true;
    discovered.favorite = false;
    discovered.source = ServiceSource::Auto;

    let (merged, _) =
        merge_services(&vec![existing], &vec![discovered], DiscoveryStatusInfo::default(), T1);
    let item = merged.first().expect("service should exist");
    assert!(!item.hidden);
    assert!(item.favorite);
}

#[test]
fn select_primary_prefers_web_ports() {
    assert_eq!(select_primary_port(&[10000, 8080, 9999]), Some(8080));
    assert_eq!(select_primary_port(&[5432, 2222]), Some(2222));
}

#[test]
fn parse_port_handles_listen_lines() {
    let line = "LISTEN 0      4096         0.0.0.0:8080      0.0.0.0:*    users:((\"node\",pid=1,fd=18))";
    assert_eq!(parse_port(line), Some(8080));
}

#[test]
fn classify_system_service_hidden_when_no_port() {
    let mut entry = ServiceEntry {
        id: "systemd-timesyncd".to_string(),
        service_name: "systemd-timesyncd.service".to_string(),
        display_name: "Timesync".to_string(),
        description: None,
        host: "server.local".to_string(),
        port: None,
        protocol: ServiceProtocol::Other,
        path: None,
        url: None,
        status: ServiceStatus::Running,
        group: None,
        tags: Vec::new(),
        icon: None,
        hidden: false,
        favorite: false,
        source: ServiceSource::Auto,
        locked_fields: Vec::new(),
        last_seen_at: None,
        updated_at: T0,
    };

    classify_service(&mut entry);
    assert_eq!(entry.group.as_deref(), Some(group_system()));
    assert!(entry.hidden);
}

#[test]
fn classify_syncthing_group() {
    let mut entry = base_service();
    entry.service_name = "syncthing.service".to_string();
    entry.group = None;
    entry.icon = None;
    entry.source = ServiceSource::Auto;

    classify_service(&mut entry);
    assert_eq!(entry.group.as_deref(), Some(group_sync()));
    assert_eq!(entry.icon.as_deref(), Some("🔄"));
    assert!(!entry.hidden);
}

#[test]
fn classify_unknown_unit_lands_in_other_group() {
    let mut entry = base_service();
    entry.service_name = "somethingelse.service".to_string();
    entry.group = None;
    entry.icon = None;

    classify_service(&mut entry);
    assert_eq!(entry.group.as_deref(), Some(group_other()));
    assert!(!entry.hidden);
}

#[test]
fn classify_preassigned_group_only_unhides() {
    let mut entry = base_service();
    entry.hidden = true;

    classify_service(&mut entry);
    assert_eq!(entry.group.as_deref(), Some("proxy"));
    assert!(!entry.hidden);
}

#[test]
fn merge_soft_retires_missing_entries() {
    let existing = base_service();
    let (merged, summary) =
        merge_services(&vec![existing], &Vec::new(), DiscoveryStatusInfo::default(), T1);
    assert_eq!(merged.len(), 1);
    assert_eq!(merged[0].status, ServiceStatus::Unknown);
    assert_eq!(merged[0].updated_at, T1);
    assert_eq!(summary.added, 0);
    assert_eq!(summary.updated, 0);
    assert_eq!(summary.unchanged, 0);
}

#[test]
fn merge_twice_reports_all_unchanged() {
    let existing = base_service();
    let mut discovered = base_service();
    discovered.display_name = "Auto Nginx".to_string();
    discovered.status = ServiceStatus::Stopped;
    discovered.source = ServiceSource::Auto;
    discovered.last_seen_at = Some(T1);

    let (first, _) = merge_services(
        &vec![existing],
        &vec![discovered.clone()],
        DiscoveryStatusInfo::default(),
        T1,
    );
    let (second, summary) =
        merge_services(&first, &vec![discovered], DiscoveryStatusInfo::default(), T1);
    assert_eq!(summary.added, 0);
    assert_eq!(summary.updated, 0);
    assert_eq!(summary.unchanged, 1);
    assert_eq!(second, first);
}

#[test]
fn merge_adds_new_entries() {
    let mut discovered = base_service();
    discovered.source = ServiceSource::Auto;
    let (merged, summary) =
        merge_services(&Vec::new(), &vec![discovered], DiscoveryStatusInfo::default(), T1);
    assert_eq!(merged.len(), 1);
    assert_eq!(merged[0].source, ServiceSource::Auto);
    assert_eq!(summary.added, 1);
    assert_eq!(summary.updated, 0);
    assert_eq!(summary.unchanged, 0);
}

#[test]
fn merge_single_always_refreshes_bookkeeping() {
    let mut existing = base_service();
    let mut discovered = base_service();
    discovered.last_seen_at = Some(T1);
    discovered.source = ServiceSource::Auto;
    merge_single(&mut existing, &discovered, T1);
    assert_eq!(existing.last_seen_at, Some(T1));
    assert_eq!(existing.source, ServiceSource::Merged);
    assert_eq!(existing.updated_at, T1);
    assert_eq!(existing.id, "nginx-service");
}

#[test]
fn parse_units_keeps_service_lines() {
    let text = "  caddy.service     loaded active running Caddy web server\n\
                cron.service      loaded active running Regular background jobs\n\
                smartd.timer      loaded active waiting Self Monitoring\n\
                old.service       loaded inactive dead Old daemon\n";
    let units = parse_units(text);
    assert_eq!(units.len(), 3);
    assert_eq!(units[0].name, "caddy.service");
    assert_eq!(units[0].status, ServiceStatus::Running);
    assert_eq!(units[2].name, "old.service");
    assert_eq!(units[2].status, ServiceStatus::Stopped);
    assert_eq!(count_running(&units), 2);
}

#[test]
fn parse_listen_ports_groups_and_sorts() {
    let text = "State  Recv-Q Send-Q Local Address:Port Peer Address:Port Process\n\
                LISTEN 0 4096 0.0.0.0:8080 0.0.0.0:* users:((\"caddy\",pid=7,fd=3))\n\
                LISTEN 0 4096 0.0.0.0:443 0.0.0.0:* users:((\"caddy\",pid=7,fd=4))\n\
                LISTEN 0 4096 0.0.0.0:443 0.0.0.0:* users:((\"caddy\",pid=7,fd=5))\n\
                LISTEN 0 128 127.0.0.1:5432 0.0.0.0:*\n";
    let map = parse_listen_ports(text);
    assert_eq!(map.len(), 2);
    assert_eq!(map[0].name, "caddy");
    assert_eq!(map[0].ports, vec![443, 8080]);
    assert_eq!(map[1].name, "unknown");
    assert_eq!(map[1].ports, vec![5432]);
}

#[test]
fn unit_key_and_association_tolerate_name_variance() {
    assert_eq!(unit_key("  Caddy.service "), "caddy");
    let map = parse_listen_ports(
        "header\nLISTEN 0 4096 0.0.0.0:8080 0.0.0.0:* users:((\"caddy\",pid=7,fd=3))\n",
    );
    let ports = ports_for_unit(&map, &unit_key("caddy.service"));
    assert_eq!(ports, vec![8080]);
    let candidates = discovery_candidates(&parse_units("caddy.service loaded active running x\n"), &map);
    assert_eq!(candidates.len(), 1);
    assert_eq!(candidates[0].name, "caddy.service");
    assert_eq!(candidates[0].primary_port, Some(8080));
}

#[test]
fn probe_decisions_follow_signals() {
    assert!(is_positive_http_signal(200));
    assert!(is_positive_http_signal(503));
    assert!(!is_positive_http_signal(0));
    assert!(!is_positive_http_signal(600));
    assert!(!probe_error_indicates_listener("tcp Connection Refused by peer"));
    assert!(!probe_error_indicates_listener("operation Timeout reached"));
    assert!(!probe_error_indicates_listener("Unable to Connect"));
    assert!(probe_error_indicates_listener("invalid certificate chain"));
    assert_eq!(protocol_from_probes(true, true), ServiceProtocol::Https);
    assert_eq!(protocol_from_probes(false, true), ServiceProtocol::Http);
    assert_eq!(protocol_from_probes(false, false), ServiceProtocol::Tcp);
}

#[test]
fn discovered_entry_fills_expected_fields() {
    let e = discovered_entry(
        "jellyfin.service",
        ServiceStatus::Running,
        Some(8096),
        ServiceProtocol::Http,
        "server.local",
        T0,
    );
    assert_eq!(e.id, "jellyfin-service");
    assert_eq!(e.service_name, "jellyfin.service");
    assert_eq!(e.display_name, "Jellyfin");
    assert_eq!(e.host, "server.local");
    assert_eq!(e.port, Some(8096));
    assert_eq!(e.source, ServiceSource::Auto);
    assert_eq!(e.last_seen_at, Some(T0));
    assert!(e.locked_fields.is_empty());
}

#[test]
fn contains_any_finds_needles() {
    assert!(contains_any("grafana-server", &["prometheus", "grafana"]));
    assert!(!contains_any("jellyfin", &["prometheus", "grafana"]));
}
