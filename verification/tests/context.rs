use bashman::context::{
    deserialize_dep_kinds, NodeDepKind, NodeDepTarget, RawNodeDepKind, FLAG_CTX_BUILD,
    FLAG_CTX_NORMAL, FLAG_TARGET_ANY, FLAG_TARGET_CFG,
};
use bashman::cargo::deserialize_features;
use bashman::pkg::Dependency;

/// Reads one declaration from its JSON text.
fn kind_from_json(raw: &str) -> RawNodeDepKind {
    let value: serde_json::Value =
        serde_json::from_str(raw).expect("Failed to deserialize RawNodeDepKind");
    let kind = value.get("kind").and_then(|v| v.as_str());
    let target = value.get("target").and_then(|v| v.as_str());
    RawNodeDepKind::parse(kind, target)
}

/// Reads the names of the features from their JSON text.
fn features_from_json(raw: &str) -> Vec<String> {
    let value: serde_json::Value = serde_json::from_str(raw).expect("Bad JSON.");
    value
        .as_object()
        .map(|m| m.keys().cloned().collect())
        .unwrap_or_default()
}

#[test]
fn t_raw_node_dep_kind() {
    // No values.
    let kind = kind_from_json(r#"{"kind": null, "target": null}"#);
    assert!(matches!(kind.kind, NodeDepKind::Normal));
    assert!(matches!(kind.target, NodeDepTarget::Any));
    assert_eq!(kind.as_flag(), Dependency::FLAG_CTX_NORMAL | Dependency::FLAG_TARGET_ANY);

    // Build.
    let kind = kind_from_json(r#"{"kind": "build", "target": null}"#);
    assert!(matches!(kind.kind, NodeDepKind::Build));
    assert!(matches!(kind.target, NodeDepTarget::Any));
    assert_eq!(kind.as_flag(), Dependency::FLAG_CTX_BUILD | Dependency::FLAG_TARGET_ANY);

    // Build and Target.
    let kind = kind_from_json(r#"{"kind": "build", "target": "cfg(unix)"}"#);
    assert!(matches!(kind.kind, NodeDepKind::Build));
    assert!(matches!(kind.target, NodeDepTarget::Cfg));
    assert_eq!(kind.as_flag(), Dependency::FLAG_CTX_BUILD | Dependency::FLAG_TARGET_CFG);

    // Target.
    let kind = kind_from_json(r#"{"kind": null, "target": "cfg(target_os = \"hermit\")"}"#);
    assert!(matches!(kind.kind, NodeDepKind::Normal));
    assert!(matches!(kind.target, NodeDepTarget::Cfg));
    assert_eq!(kind.as_flag(), Dependency::FLAG_CTX_NORMAL | Dependency::FLAG_TARGET_CFG);

    // A target that can never hold.
    let kind = kind_from_json(r#"{"kind": null, "target": "cfg(any())"}"#);
    assert!(matches!(kind.kind, NodeDepKind::Normal));
    assert!(matches!(kind.target, NodeDepTarget::Never));
    assert_eq!(kind.as_flag(), 0);

    // Dev.
    let kind = kind_from_json(r#"{"kind": "dev", "target": null}"#);
    assert!(matches!(kind.kind, NodeDepKind::Dev));
    assert!(matches!(kind.target, NodeDepTarget::Any));
    assert_eq!(kind.as_flag(), 0);

    // Dev and target.
    let kind = kind_from_json(r#"{"kind": "dev", "target": "cfg(target_os = \"wasi\")"}"#);
    assert!(matches!(kind.kind, NodeDepKind::Dev));
    assert!(matches!(kind.target, NodeDepTarget::Cfg));
    assert_eq!(kind.as_flag(), 0);
}

#[test]
fn t_deserialize_features() {
    assert!(!deserialize_features(&features_from_json(r#"{}"#)));
    assert!(!deserialize_features(&features_from_json(r#"{"default": ["foo"]}"#)));
    assert!(deserialize_features(&features_from_json(r#"{"utc2k": null}"#)));
    assert!(deserialize_features(&features_from_json(r#"{"default": ["foo"], "bar": null}"#)));
}

#[test]
fn classification_table() {
    let kinds = [NodeDepKind::Normal, NodeDepKind::Build, NodeDepKind::Dev];
    let targets = [NodeDepTarget::Any, NodeDepTarget::Never, NodeDepTarget::Cfg];
    for kind in kinds {
        for target in targets {
            let flag = RawNodeDepKind { kind, target }.as_flag();
            let expected = match (kind, target) {
                (NodeDepKind::Dev, _) | (_, NodeDepTarget::Never) => 0,
                (NodeDepKind::Normal, NodeDepTarget::Any) => 0b0001_0100,
                (NodeDepKind::Normal, NodeDepTarget::Cfg) => 0b0001_1000,
                (NodeDepKind::Build, NodeDepTarget::Any) => 0b0010_0100,
                (NodeDepKind::Build, NodeDepTarget::Cfg) => 0b0010_1000,
            };
            assert_eq!(flag, expected);
            // The same call gives the same flag.
            assert_eq!(flag, RawNodeDepKind { kind, target }.as_flag());
        }
    }
}

#[test]
fn flag_constants() {
    assert_eq!(FLAG_CTX_NORMAL, Dependency::FLAG_CTX_NORMAL);
    assert_eq!(FLAG_CTX_BUILD, Dependency::FLAG_CTX_BUILD);
    assert_eq!(FLAG_TARGET_ANY, Dependency::FLAG_TARGET_ANY);
    assert_eq!(FLAG_TARGET_CFG, Dependency::FLAG_TARGET_CFG);
    assert_eq!(Dependency::MASK_CTX, FLAG_CTX_NORMAL | FLAG_CTX_BUILD);
    assert_eq!(Dependency::MASK_TARGET, FLAG_TARGET_ANY | FLAG_TARGET_CFG);
}

#[test]
fn edge_flag_is_union_of_declarations() {
    let normal_cfg = RawNodeDepKind { kind: NodeDepKind::Normal, target: NodeDepTarget::Cfg };
    let build_any = RawNodeDepKind { kind: NodeDepKind::Build, target: NodeDepTarget::Any };
    let dev = RawNodeDepKind { kind: NodeDepKind::Dev, target: NodeDepTarget::Any };
    let never = RawNodeDepKind { kind: NodeDepKind::Normal, target: NodeDepTarget::Never };

    assert_eq!(deserialize_dep_kinds(&vec![]), 0);
    assert_eq!(deserialize_dep_kinds(&vec![dev, never]), 0);
    assert_eq!(deserialize_dep_kinds(&vec![normal_cfg]), 0b0001_1000);
    assert_eq!(deserialize_dep_kinds(&vec![normal_cfg, dev, build_any]), 0b0011_1100);
}

#[test]
fn kind_and_target_words() {
    assert!(matches!(NodeDepKind::parse(None), NodeDepKind::Normal));
    assert!(matches!(NodeDepKind::parse(Some("build")), NodeDepKind::Build));
    assert!(matches!(NodeDepKind::parse(Some("dev")), NodeDepKind::Dev));
    assert!(matches!(NodeDepKind::parse(Some("normal")), NodeDepKind::Normal));
    assert!(matches!(NodeDepKind::parse(Some("Build")), NodeDepKind::Normal));
    assert!(matches!(NodeDepTarget::parse(None), NodeDepTarget::Any));
    assert!(matches!(NodeDepTarget::parse(Some("cfg(all())")), NodeDepTarget::Any));
    assert!(matches!(NodeDepTarget::parse(Some("cfg(any())")), NodeDepTarget::Never));
    assert!(matches!(NodeDepTarget::parse(Some("cfg(windows)")), NodeDepTarget::Cfg));
    assert!(matches!(NodeDepKind::default(), NodeDepKind::Normal));
    assert!(matches!(NodeDepTarget::default(), NodeDepTarget::Any));
}
