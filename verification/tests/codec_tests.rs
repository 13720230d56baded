use service_catalog::codec::catalog_to_json;
use service_catalog::models::{ServiceEntry, ServiceProtocol, ServiceSource, ServiceStatus};

fn opt_string(v: &serde_json::Value) -> Option<String> {
    v.as_str().map(|s| s.to_string())
}

fn entry_from_value(v: &serde_json::Value) -> ServiceEntry {
    ServiceEntry {
        id: v["id"].as_str().expect("id").to_string(),
        service_name: v["service_name"].as_str().expect("service_name").to_string(),
        display_name: v["display_name"].as_str().expect("display_name").to_string(),
        description: opt_string(&v["description"]),
        host: v["host"].as_str().expect("host").to_string(),
        port: v["port"].as_u64().map(|p| p as u16),
        protocol: match v["protocol"].as_str().expect("protocol") {
            "http" => ServiceProtocol::Http,
            "https" => ServiceProtocol::Https,
            "tcp" => ServiceProtocol::Tcp,
            _ => ServiceProtocol::Other,
        },
        path: opt_string(&v["path"]),
        url: opt_string(&v["url"]),
        status: match v["status"].as_str().expect("status") {
            "running" => ServiceStatus::Running,
            "stopped" => ServiceStatus::Stopped,
            _ => ServiceStatus::Unknown,
        },
        group: opt_string(&v["group"]),
        tags: v["tags"]
            .as_array()
            .expect("tags")
            .iter()
            .map(|t| t.as_str().expect("tag").to_string())
            .collect(),
        icon: opt_string(&v["icon"]),
        hidden: v["hidden"].as_bool().expect("hidden"),
        favorite: v["favorite"].as_bool().expect("favorite"),
        source: match v["source"].as_str().expect("source") {
            "auto" => ServiceSource::Auto,
            "manual" => ServiceSource::Manual,
            _ => ServiceSource::Merged,
        },
        locked_fields: v["locked_fields"]
            .as_array()
            .expect("locked_fields")
            .iter()
            .map(|t| t.as_str().expect("locked field").to_string())
            .collect(),
        last_seen_at: v["last_seen_at"].as_i64(),
        updated_at: v["updated_at"].as_i64().expect("updated_at"),
    }
}

#[test]
fn catalog_round_trips_through_json() {
    let full = ServiceEntry {
        id: "sync-box".to_string(),
        service_name: "sync-box.service".to_string(),
        display_name: "Quote \" back\\slash and\ttab".to_string(),
        description: Some("多行\n描述".to_string()),
        host: "server.local".to_string(),
        port: Some(8384),
        protocol: ServiceProtocol::Https,
        path: Some("/ui".to_string()),
        url: Some("https://example/ui".to_string()),
        status: ServiceStatus::Running,
        group: Some("同步".to_string()),
        tags: vec!["sync".to_string(), "标签".to_string()],
        icon: Some("🔄".to_string()),
        hidden: false,
        favorite: true,
        source: ServiceSource::Merged,
        locked_fields: vec!["display_name".to_string(), "port".to_string()],
        last_seen_at: Some(1_700_000_000_000),
        updated_at: 1_700_000_060_000,
    };
    let sparse = ServiceEntry {
        id: "bare".to_string(),
        service_name: "bare.service".to_string(),
        display_name: "Bare".to_string(),
        description: None,
        host: "server.local".to_string(),
        port: None,
        protocol: ServiceProtocol::Other,
        path: None,
        url: None,
        status: ServiceStatus::Unknown,
        group: None,
        tags: Vec::new(),
        icon: None,
        hidden: true,
        favorite: false,
        source: ServiceSource::Auto,
        locked_fields: Vec::new(),
        last_seen_at: None,
        updated_at: -5,
    };
    let entries = vec![full, sparse];
    let text = catalog_to_json(&entries);
    assert!(text.contains("\n    \"id\": "));
    let parsed: serde_json::Value = serde_json::from_str(&text).expect("the codec writes JSON");
    let list = parsed.as_array().expect("a JSON array");
    assert_eq!(list.len(), entries.len());
    let reloaded: Vec<ServiceEntry> = list.iter().map(entry_from_value).collect();
    assert_eq!(reloaded, entries);
}

#[test]
fn empty_catalog_is_an_empty_array() {
    assert_eq!(catalog_to_json(&Vec::new()), "[]");
}
