use service_catalog::catalog::{matches_query, CatalogState};
use service_catalog::install::{render_env, render_unit, unit_name_from_path};
use service_catalog::models::{
    build_service_url, default_locked_fields, humanize_service_name, infer_protocol_from_port,
    normalize_locked_fields, service_id, ApiError, CreateServiceRequest, DiscoveryStatusInfo,
    ServiceEntry, ServiceProtocol, ServiceQuery, ServiceSource, ServiceStatus,
    UpdateServiceRequest,
};
use service_catalog::store::ServiceStore;

const T0: i64 = 1_700_000_000_000;
const T1: i64 = 1_700_000_060_000;

fn grafana_entry() -> ServiceEntry {
    ServiceEntry {
        id: "grafana-service".to_string(),
        service_name: "grafana.service".to_string(),
        display_name: "Grafana".to_string(),
        description: None,
        host: "server.local".to_string(),
        port: Some(3000),
        protocol: ServiceProtocol::Http,
        path: None,
        url: None,
        status: ServiceStatus::Running,
        group: Some("monitoring".to_string()),
        tags: vec!["dashboard".to_string()],
        icon: None,
        hidden: false,
        favorite: false,
        source: ServiceSource::Manual,
        locked_fields: Vec::new(),
        last_seen_at: None,
        updated_at: T0,
    }
}

fn empty_query() -> ServiceQuery {
    ServiceQuery { q: None, group: None, status: None, include_hidden: None }
}

#[test]
fn query_filters_by_text() {
    let entry = grafana_entry();

    assert!(matches_query(&entry, &ServiceQuery { q: Some("graf".to_string()), ..empty_query() }));
    assert!(!matches_query(
        &entry,
        &ServiceQuery { q: Some("jellyfin".to_string()), ..empty_query() }
    ));
}

#[test]
fn query_matches_tags_group_and_port_case_insensitively() {
    let entry = grafana_entry();
    assert!(matches_query(&entry, &ServiceQuery { q: Some("DASHBOARD".to_string()), ..empty_query() }));
    assert!(matches_query(&entry, &ServiceQuery { q: Some("Monitor".to_string()), ..empty_query() }));
    assert!(matches_query(&entry, &ServiceQuery { q: Some("300".to_string()), ..empty_query() }));
    assert!(matches_query(&entry, &ServiceQuery { q: Some("grafana.SERVICE".to_string()), ..empty_query() }));
    assert!(!matches_query(&entry, &ServiceQuery { q: Some("8080".to_string()), ..empty_query() }));
    assert!(matches_query(
        &entry,
        &ServiceQuery { group: Some("monitoring".to_string()), ..empty_query() }
    ));
    assert!(!matches_query(
        &entry,
        &ServiceQuery { group: Some("media".to_string()), ..empty_query() }
    ));
    assert!(matches_query(
        &entry,
        &ServiceQuery { status: Some(ServiceStatus::Running), ..empty_query() }
    ));
    assert!(!matches_query(
        &entry,
        &ServiceQuery { status: Some(ServiceStatus::Stopped), ..empty_query() }
    ));
}

#[test]
fn service_id_slugs_names() {
    assert_eq!(service_id("Nginx Proxy!!"), "nginx-proxy");
    assert_eq!(service_id("NGINX"), "nginx");
    assert_eq!(service_id("--a--b--"), "a-b");
    assert_eq!(service_id("jellyfin.service"), "jellyfin-service");
}

#[test]
fn humanize_splits_and_capitalizes() {
    assert_eq!(humanize_service_name("jellyfin.service"), "Jellyfin");
    assert_eq!(humanize_service_name("home-server_navigator.service"), "Home Server Navigator");
    assert_eq!(humanize_service_name("nginx"), "Nginx");
}

#[test]
fn infer_protocol_uses_fixed_table() {
    assert_eq!(infer_protocol_from_port(Some(443)), ServiceProtocol::Https);
    assert_eq!(infer_protocol_from_port(Some(8443)), ServiceProtocol::Https);
    assert_eq!(infer_protocol_from_port(Some(80)), ServiceProtocol::Http);
    assert_eq!(infer_protocol_from_port(Some(3000)), ServiceProtocol::Http);
    assert_eq!(infer_protocol_from_port(Some(5432)), ServiceProtocol::Tcp);
    assert_eq!(infer_protocol_from_port(None), ServiceProtocol::Other);
}

#[test]
fn build_service_url_composes_parts() {
    assert_eq!(
        build_service_url(&ServiceProtocol::Http, "host", Some(8080), Some(" admin ")),
        Some("http://host:8080/admin".to_string())
    );
    assert_eq!(
        build_service_url(&ServiceProtocol::Https, "host", Some(443), Some("/ui")),
        Some("https://host:443/ui".to_string())
    );
    assert_eq!(build_service_url(&ServiceProtocol::Http, "host", None, None), None);
    assert_eq!(build_service_url(&ServiceProtocol::Tcp, "host", Some(22), None), None);
}

#[test]
fn resolved_url_prefers_explicit_override() {
    let mut entry = grafana_entry();
    assert_eq!(entry.resolved_url(), Some("http://server.local:3000".to_string()));
    entry.url = Some("http://other/".to_string());
    assert_eq!(entry.resolved_url(), Some("http://other/".to_string()));
}

#[test]
fn normalize_locked_fields_trims_sorts_and_dedups() {
    let mut values = vec![
        " port ".to_string(),
        "  ".to_string(),
        "display_name".to_string(),
        "port".to_string(),
    ];
    normalize_locked_fields(&mut values);
    assert_eq!(values, vec!["display_name".to_string(), "port".to_string()]);
}

#[test]
fn default_locked_fields_cover_editable_fields() {
    let fields = default_locked_fields();
    assert_eq!(fields.len(), 12);
    assert!(fields.contains(&"display_name".to_string()));
    assert!(fields.contains(&"favorite".to_string()));
}

#[test]
fn lock_field_appends_once() {
    let mut entry = grafana_entry();
    assert!(!entry.is_locked("port"));
    entry.lock_field("port");
    entry.lock_field("port");
    assert!(entry.is_locked("port"));
    assert_eq!(entry.locked_fields, vec!["port".to_string()]);
}

fn create_request(name: &str) -> CreateServiceRequest {
    CreateServiceRequest {
        service_name: name.to_string(),
        display_name: None,
        description: None,
        host: None,
        port: None,
        protocol: None,
        path: None,
        url: None,
        group: None,
        tags: None,
        icon: None,
        hidden: None,
        favorite: None,
        locked_fields: None,
    }
}

#[test]
fn into_entry_fills_defaults() {
    let mut request = create_request("  media-server.service ");
    request.port = Some(8096);
    request.path = Some("  ".to_string());
    let entry = request.into_entry("server.local", T0);
    assert_eq!(entry.id, "media-server-service");
    assert_eq!(entry.service_name, "media-server.service");
    assert_eq!(entry.display_name, "Media Server");
    assert_eq!(entry.host, "server.local");
    assert_eq!(entry.protocol, ServiceProtocol::Http);
    assert_eq!(entry.path, None);
    assert_eq!(entry.status, ServiceStatus::Unknown);
    assert_eq!(entry.source, ServiceSource::Manual);
    assert_eq!(entry.locked_fields.len(), 12);
    assert_eq!(entry.updated_at, T0);
}

#[test]
fn create_service_disambiguates_colliding_ids() {
    let mut state = CatalogState::new("server.local".to_string(), vec![grafana_entry()]);
    let first = state.create_service(create_request("grafana.service"), T1);
    assert_eq!(first.id, format!("grafana-service-{T1}"));
    assert_eq!(state.services.len(), 2);
}

#[test]
fn update_service_applies_patch_and_auto_locks() {
    let mut state = CatalogState::new("server.local".to_string(), vec![grafana_entry()]);
    let patch = UpdateServiceRequest {
        display_name: Some("Dashboards".to_string()),
        description: None,
        host: None,
        port: Some(Some(3001)),
        protocol: None,
        path: None,
        url: None,
        status: Some(ServiceStatus::Stopped),
        group: None,
        tags: None,
        icon: None,
        hidden: None,
        favorite: None,
        locked_fields: None,
        auto_lock: None,
    };
    let updated = state.update_service("grafana-service", patch, T1).expect("entry exists");
    assert_eq!(updated.display_name, "Dashboards");
    assert_eq!(updated.port, Some(3001));
    assert_eq!(updated.status, ServiceStatus::Stopped);
    assert!(updated.locked_fields.contains(&"display_name".to_string()));
    assert!(updated.locked_fields.contains(&"port".to_string()));
    assert!(updated.locked_fields.contains(&"status".to_string()));
    assert_eq!(updated.updated_at, T1);
}

fn empty_patch() -> UpdateServiceRequest {
    UpdateServiceRequest {
        display_name: None,
        description: None,
        host: None,
        port: None,
        protocol: None,
        path: None,
        url: None,
        status: None,
        group: None,
        tags: None,
        icon: None,
        hidden: None,
        favorite: None,
        locked_fields: None,
        auto_lock: None,
    }
}

#[test]
fn update_service_locks_only_actual_changes() {
    let mut state = CatalogState::new("server.local".to_string(), vec![grafana_entry()]);
    // writing the stored values back changes nothing, so nothing is locked
    let mut same = empty_patch();
    same.display_name = Some("Grafana".to_string());
    same.port = Some(Some(3000));
    same.status = Some(ServiceStatus::Running);
    let updated = state.update_service("grafana-service", same, T1).expect("entry exists");
    assert!(updated.locked_fields.is_empty());
    // a patch changing only the status locks exactly the status
    let mut status_only = empty_patch();
    status_only.status = Some(ServiceStatus::Stopped);
    let updated = state.update_service("grafana-service", status_only, T1).expect("entry exists");
    assert_eq!(updated.status, ServiceStatus::Stopped);
    assert_eq!(updated.locked_fields, vec!["status".to_string()]);
}

#[test]
fn update_service_without_auto_lock_adds_no_locks() {
    let mut entry = grafana_entry();
    entry.locked_fields = vec!["port".to_string()];
    let mut state = CatalogState::new("server.local".to_string(), vec![entry]);
    let mut patch = empty_patch();
    patch.display_name = Some("Dashboards".to_string());
    patch.auto_lock = Some(false);
    let updated = state.update_service("grafana-service", patch, T1).expect("entry exists");
    assert_eq!(updated.display_name, "Dashboards");
    assert_eq!(updated.locked_fields, vec!["port".to_string()]);
    // even an empty lock list stays empty when auto-locking is off
    let mut bare = grafana_entry();
    bare.id = "bare".to_string();
    bare.locked_fields = Vec::new();
    let mut state = CatalogState::new("server.local".to_string(), vec![bare]);
    let mut patch = empty_patch();
    patch.display_name = Some("Renamed".to_string());
    patch.auto_lock = Some(false);
    let updated = state.update_service("bare", patch, T1).expect("entry exists");
    assert_eq!(updated.display_name, "Renamed");
    assert!(updated.locked_fields.is_empty());
}

#[test]
fn update_service_unknown_id_reports_not_found() {
    let mut state = CatalogState::new("server.local".to_string(), vec![grafana_entry()]);
    let patch = UpdateServiceRequest {
        display_name: None,
        description: None,
        host: None,
        port: None,
        protocol: None,
        path: None,
        url: None,
        status: None,
        group: None,
        tags: None,
        icon: None,
        hidden: None,
        favorite: None,
        locked_fields: None,
        auto_lock: None,
    };
    assert!(state.update_service("not-found", patch, T1).is_none());
    assert!(state.get_service("not-found").is_none());
    assert_eq!(state.get_service("grafana-service").expect("exists").id, "grafana-service");
}

#[test]
fn list_services_excludes_hidden_unless_asked() {
    let mut hidden = grafana_entry();
    hidden.id = "hidden-service".to_string();
    hidden.display_name = "Hidden".to_string();
    hidden.hidden = true;
    let state = CatalogState::new("server.local".to_string(), vec![grafana_entry(), hidden]);
    let visible = state.list_services(&empty_query());
    assert_eq!(visible.len(), 1);
    assert_eq!(visible[0].id, "grafana-service");
    let all = state.list_services(&ServiceQuery { include_hidden: Some(true), ..empty_query() });
    assert_eq!(all.len(), 2);
    assert_eq!(all[0].display_name, "Grafana");
    assert_eq!(all[1].display_name, "Hidden");
}

#[test]
fn commit_discovery_updates_state_and_status() {
    let mut state = CatalogState::new("server.local".to_string(), vec![grafana_entry()]);
    assert_eq!(state.discovery_status(), DiscoveryStatusInfo::default());
    let mut discovered = grafana_entry();
    discovered.status = ServiceStatus::Stopped;
    discovered.source = ServiceSource::Auto;
    let mut summary = DiscoveryStatusInfo::default();
    summary.scanned_units = 5;
    let result = state.commit_discovery(&vec![discovered], summary, T1);
    assert_eq!(result.scanned_units, 5);
    assert_eq!(result.updated, 1);
    assert_eq!(state.services[0].status, ServiceStatus::Stopped);
    assert_eq!(state.discovery_status(), result);
}

#[test]
fn store_paths_derive_from_primary() {
    let store = ServiceStore::new("data/services.json".to_string());
    assert_eq!(store.path, "data/services.json");
    assert_eq!(store.backup_path, "data/services.json.bak");
    assert_eq!(store.temp_path(), "data/services.json.tmp");
}

#[test]
fn render_env_and_unit_embed_settings() {
    let env = render_env("0.0.0.0", 8080, "localhost", "/var/lib/app/services.json");
    assert!(env.contains("HOST=0.0.0.0\n"));
    assert!(env.contains("PORT=8080\n"));
    assert!(env.contains("DATA_FILE=/var/lib/app/services.json\n"));
    let unit = render_unit("/usr/local/bin/app", "/etc/default/app");
    assert!(unit.contains("EnvironmentFile=/etc/default/app\n"));
    assert!(unit.contains("ExecStart=/usr/local/bin/app --host ${HOST}"));
    assert!(unit.contains("WantedBy=multi-user.target\n"));
}

#[test]
fn unit_name_comes_from_last_path_segment() {
    assert_eq!(
        unit_name_from_path("/etc/systemd/system/app.service"),
        Some("app.service".to_string())
    );
    assert_eq!(unit_name_from_path("app.service"), Some("app.service".to_string()));
    assert_eq!(unit_name_from_path("/etc/systemd/system/"), None);
}

#[test]
fn api_error_wraps_message() {
    let error = ApiError::new("service_name is required".to_string());
    assert_eq!(error.message, "service_name is required");
}

#[test]
fn auto_lock_defaults_to_enabled() {
    let mut patch = UpdateServiceRequest {
        display_name: None,
        description: None,
        host: None,
        port: None,
        protocol: None,
        path: None,
        url: None,
        status: None,
        group: None,
        tags: None,
        icon: None,
        hidden: None,
        favorite: None,
        locked_fields: None,
        auto_lock: None,
    };
    assert!(patch.auto_lock_enabled());
    patch.auto_lock = Some(false);
    assert!(!patch.auto_lock_enabled());
}
