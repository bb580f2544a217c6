use komodo_guard::compose::{parse_compose_services, ComposeFile, ComposeService, ComposeServiceDeploy};
use komodo_guard::redact::{compose_config_withheld, finish_redaction, redact_compose_environment};
use komodo_guard::yaml::Yaml;
use serde_yaml_ng::value::{Tag, TaggedValue};
use serde_yaml_ng::{Mapping, Number, Value};

const CANARY: &str = "sk_live_CANARY_7f3a91";

fn to_yaml(v: Value) -> Yaml {
    match v {
        Value::Null => Yaml::Null,
        Value::Bool(b) => Yaml::Bool(b),
        Value::Number(n) => Yaml::Number(n.to_string()),
        Value::String(s) => Yaml::Str(s),
        Value::Sequence(s) => Yaml::Sequence(s.into_iter().map(to_yaml).collect()),
        Value::Mapping(m) => {
            Yaml::Mapping(m.into_iter().map(|(k, v)| (to_yaml(k), to_yaml(v))).collect())
        }
        Value::Tagged(t) => {
            let TaggedValue { tag, value } = *t;
            Yaml::Tagged(tag.to_string(), Box::new(to_yaml(value)))
        }
    }
}

fn to_value(y: Yaml) -> Value {
    match y {
        Yaml::Null => Value::Null,
        Yaml::Bool(b) => Value::Bool(b),
        Yaml::Number(n) => Value::Number(n.parse::<Number>().unwrap()),
        Yaml::Str(s) => Value::String(s),
        Yaml::Sequence(s) => Value::Sequence(s.into_iter().map(to_value).collect()),
        Yaml::Mapping(m) => {
            let mut map = Mapping::new();
            for (k, v) in m {
                map.insert(to_value(k), to_value(v));
            }
            Value::Mapping(map)
        }
        Yaml::Tagged(tag, value) => {
            Value::Tagged(Box::new(TaggedValue { tag: Tag::new(tag), value: to_value(*value) }))
        }
    }
}

fn redact_compose_config(raw_config: &str, replacers: &[(String, String)]) -> String {
    let Ok(config) = serde_yaml_ng::from_str::<Value>(raw_config) else {
        return compose_config_withheld();
    };
    let redacted = redact_compose_environment(to_yaml(config));
    let serialized = serde_yaml_ng::to_string(&to_value(redacted)).ok();
    finish_redaction(serialized, replacers)
}

fn compose_file(raw: &str) -> ComposeFile {
    let value: Value = serde_yaml_ng::from_str(raw).unwrap();
    let text = |v: Option<&Value>| v.and_then(Value::as_str).map(String::from);
    let services = match value.get("services").and_then(Value::as_mapping) {
        Some(services) => services
            .iter()
            .map(|(name, service)| {
                let deploy = service.get("deploy").map(|d| ComposeServiceDeploy {
                    replicas: d.get("replicas").and_then(Value::as_u64).map(|r| r as u8),
                });
                (
                    name.as_str().unwrap().to_string(),
                    ComposeService {
                        image: text(service.get("image")),
                        container_name: text(service.get("container_name")),
                        deploy,
                    },
                )
            })
            .collect(),
        None => Vec::new(),
    };
    ComposeFile { name: text(value.get("name")), services }
}

fn resolved_config() -> String {
    format!(
        "name: leak-repro
services:
  app:
    command:
      - sleep
      - \"3600\"
    environment:
      CANARY_SECRET: {CANARY}
      EMPTY: \"\"
    image: busybox:1.36
    networks:
      default: null
  worker:
    environment:
      - LIST_SECRET={CANARY}
    image: busybox:1.36
networks:
  default:
    name: leak-repro_default
"
    )
}

#[test]
fn redacts_environment_values_resolved_from_env_files() {
    let redacted = redact_compose_config(&resolved_config(), &[]);
    assert!(!redacted.contains(CANARY), "{redacted}");
}

#[test]
fn keeps_environment_keys_and_non_secret_structure() {
    let redacted = redact_compose_config(&resolved_config(), &[]);
    assert!(redacted.contains("CANARY_SECRET"), "{redacted}");
    assert!(redacted.contains("LIST_SECRET"), "{redacted}");
    assert!(redacted.contains("image: busybox:1.36"), "{redacted}");
    let mut services = Vec::new();
    parse_compose_services(&compose_file(&redacted), "leak-repro", &mut services);
    assert_eq!(services.len(), 2);
}

#[test]
fn applies_known_secret_replacers_outside_environment() {
    let config = "services:\n  app:\n    image: busybox\n    command: [\"run\", \"--token=tok_ABC123\"]\n";
    let redacted = redact_compose_config(
        config,
        &[(String::from("tok_ABC123"), String::from("<API_TOKEN>"))],
    );
    assert!(!redacted.contains("tok_ABC123"), "{redacted}");
    assert!(redacted.contains("<API_TOKEN>"), "{redacted}");
}

#[test]
fn fails_closed_when_config_is_not_yaml() {
    let redacted = redact_compose_config(
        &format!("services: [unclosed\n  CANARY_SECRET: {CANARY}"),
        &[],
    );
    assert!(!redacted.contains(CANARY), "{redacted}");
    assert_eq!(
        redacted,
        "<compose config withheld: output could not be parsed for redaction>"
    );
}

fn s(text: &str) -> Yaml {
    Yaml::Str(text.to_string())
}

fn map(entries: Vec<(&str, Yaml)>) -> Yaml {
    Yaml::Mapping(entries.into_iter().map(|(k, v)| (s(k), v)).collect())
}

fn as_value(y: Yaml) -> Value {
    to_value(y)
}

#[test]
fn redacts_tagged_values_and_list_entries() {
    let config = Yaml::Tagged(
        "!doc".to_string(),
        Box::new(map(vec![(
            "services",
            map(vec![(
                "api",
                Yaml::Tagged(
                    "!svc".to_string(),
                    Box::new(map(vec![
                        (
                            "environment",
                            Yaml::Sequence(vec![
                                s("A=1=2"),
                                s("NO_VALUE"),
                                Yaml::Tagged("!t".to_string(), Box::new(s("B=secret"))),
                                Yaml::Number("7".to_string()),
                            ]),
                        ),
                        ("image", s("img")),
                    ])),
                ),
            )]),
        )])),
    );
    let expected = Yaml::Tagged(
        "!doc".to_string(),
        Box::new(map(vec![(
            "services",
            map(vec![(
                "api",
                Yaml::Tagged(
                    "!svc".to_string(),
                    Box::new(map(vec![
                        (
                            "environment",
                            Yaml::Sequence(vec![
                                s("A=<redacted>"),
                                s("NO_VALUE"),
                                s("B=<redacted>"),
                                Yaml::Number("7".to_string()),
                            ]),
                        ),
                        ("image", s("img")),
                    ])),
                ),
            )]),
        )])),
    );
    assert_eq!(as_value(redact_compose_environment(config)), as_value(expected));
}

#[test]
fn keeps_null_values_and_redacts_all_others() {
    let config = map(vec![(
        "services",
        map(vec![(
            "app",
            map(vec![(
                "environment",
                map(vec![
                    ("A", Yaml::Null),
                    ("B", Yaml::Bool(true)),
                    ("C", Yaml::Number("3".to_string())),
                    ("D", Yaml::Tagged("!n".to_string(), Box::new(Yaml::Null))),
                ]),
            )]),
        )]),
    )]);
    let redacted = as_value(redact_compose_environment(config));
    let env = &redacted["services"]["app"]["environment"];
    assert!(env["A"].is_null());
    assert_eq!(env["B"], Value::String("<redacted>".to_string()));
    assert_eq!(env["C"], Value::String("<redacted>".to_string()));
    assert!(env["D"].is_null());
}

#[test]
fn leaves_configs_without_services_alone() {
    let raw = "version: '3'\nenvironment:\n  TOP: secret\n";
    let redacted = redact_compose_config(raw, &[]);
    assert!(redacted.contains("TOP: secret"), "{redacted}");
}

#[test]
fn redaction_is_idempotent_on_a_real_config() {
    let once = redact_compose_config(&resolved_config(), &[]);
    let twice = redact_compose_config(&once, &[]);
    assert_eq!(once, twice);
}

#[test]
fn replacers_wrap_names_and_apply_in_order() {
    let out = finish_redaction(
        Some("a-b-a".to_string()),
        &[("a".to_string(), "X".to_string()), ("<X>".to_string(), "Y".to_string())],
    );
    assert_eq!(out, "<Y>-b-<Y>");
    let withheld = finish_redaction(None, &[("withheld".to_string(), "W".to_string())]);
    assert_eq!(withheld, "<compose config <W>: redacted output could not be serialized>");
}
