use tarn::resources::{route_resource, ResourceRoute};

#[test]
fn vault_routes() {
    assert_eq!(route_resource("tarn://vault/info"), Some(ResourceRoute::VaultInfo(None)));
    assert_eq!(route_resource("tarn://vault/info/projects"), Some(ResourceRoute::VaultInfo(Some("projects".to_string()))));
    assert_eq!(route_resource("tarn://vault/tags"), Some(ResourceRoute::VaultTags(None)));
    assert_eq!(route_resource("tarn://vault/tags/a/b"), Some(ResourceRoute::VaultTags(Some("a/b".to_string()))));
    assert_eq!(route_resource("tarn://vault/folders"), Some(ResourceRoute::VaultFolders(None)));
    assert_eq!(route_resource("tarn://vault/other"), None);
    assert_eq!(route_resource("tarn://vault"), None);
}

#[test]
fn note_routes() {
    assert_eq!(route_resource("tarn://note/a/b.md"), Some(ResourceRoute::Note("a/b.md".to_string())));
    assert_eq!(
        route_resource("tarn://note/a/b.md#Goals/Q1"),
        Some(ResourceRoute::Section("a/b.md".to_string(), "Goals/Q1".to_string()))
    );
    assert_eq!(route_resource("tarn://note"), Some(ResourceRoute::Note(String::new())));
}

#[test]
fn unknown_routes() {
    assert_eq!(route_resource("http://vault/info"), None);
    assert_eq!(route_resource("tarn://other/x"), None);
    assert_eq!(route_resource("tarn:/"), None);
}
