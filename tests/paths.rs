use std::path::PathBuf;

#[test]
fn test_path_structure() {
    let base = PathBuf::from("test_install");

    let expected_structure = vec![
        base.join("data").join("steno.db"),
        base.join("data").join("backups"),
        base.join("models").join("model_config.json"),
        base.join("logs"),
    ];

    for path in expected_structure {
        println!("expected path: {}", path.display());
        assert!(path.parent().is_some());
    }
}
