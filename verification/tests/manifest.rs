use derp::manifest;
use derp::manifest::{Manifest, Node};
use serde_yaml::Value;

/// A YAML value as the library takes it
fn node(v: &Value) -> Node {
    match v {
        Value::Null => Node::Null,
        Value::Bool(b) => Node::Bool(*b),
        Value::Number(n) => match (n.as_i64(), n.as_u64()) {
            (Some(i), _) => Node::Int(i),
            (None, Some(u)) => Node::Big(u, n.to_string()),
            (None, None) => Node::Float(n.as_f64().unwrap().to_string()),
        },
        Value::String(s) => Node::Text(s.clone()),
        Value::Sequence(items) => Node::List(items.iter().map(node).collect()),
        Value::Mapping(fields) => Node::Fields(
            fields
                .iter()
                .map(|(k, v)| (k.as_str().unwrap_or_default().to_string(), node(v)))
                .collect(),
        ),
        Value::Tagged(t) => node(&t.value),
    }
}

fn parse(text: &str) -> Result<Manifest, String> {
    let value: Value = serde_yaml::from_str(text).map_err(|e| format!("run file: {e}"))?;
    manifest::parse(&node(&value)).map_err(|e| e.message())
}

#[test]
fn hosts_processes_and_settings() {
    let m = parse(
        r#"
seed: 7
quantum: 10000..100000
mem-hook-rate: 1/16
net-latency: 5ms
allow: [/opt/content]
hosts:
  - name: alpha
    files: [site/index.html, site/img]
    processes:
      - [./srv, --port, 80, "two words", "007", true]
  - name: beta
    processes:
      - ./cli alpha   80
      - argv: [./cli, --, --seed, 3]
        env: { MODE: fast, LEVEL: 2 }
"#,
    )
    .unwrap();
    assert_eq!(m.hosts.len(), 2);
    assert_eq!(m.hosts[0].name, "alpha");
    assert_eq!(m.hosts[0].files, ["site/index.html", "site/img"]);
    assert!(m.hosts[1].files.is_empty());
    assert_eq!(m.processes[0].host, 0);
    assert_eq!(
        m.processes[0].argv,
        ["./srv", "--port", "80", "two words", "007", "true"]
    );
    assert_eq!(m.processes[1].host, 1);
    assert_eq!(m.processes[1].argv, ["./cli", "alpha", "80"]);
    assert_eq!(m.processes[2].argv, ["./cli", "--", "--seed", "3"]);
    assert_eq!(
        m.processes[2].env,
        [
            ("LEVEL".to_string(), "2".to_string()),
            ("MODE".to_string(), "fast".to_string())
        ]
    );
    assert_eq!(m.seed, Some(7));
    assert_eq!(m.quantum.as_deref(), Some("10000..100000"));
    assert_eq!(m.mem_hook_rate.as_deref(), Some("1/16"));
    assert_eq!(m.net_latency.as_deref(), Some("5ms"));
    assert_eq!(m.allow, ["/opt/content"]);
}

#[test]
fn a_bare_number_is_a_valid_latency() {
    let m = parse("net-latency: 5\nhosts: [{name: a, processes: [p]}]\n").unwrap();
    assert_eq!(m.net_latency.as_deref(), Some("5"));
}

#[test]
fn errors_say_what_is_wrong() {
    let err = |text: &str| parse(text).err().unwrap();
    assert!(err("hosts: [{name: a}]").contains("no processes"));
    assert!(
        err("hosts: [{name: a, processes: [p]}, {name: a, processes: [p]}]")
            .contains("declared twice")
    );
    assert!(err("hosts: [{name: 'a b', processes: [p]}]").contains("host name"));
    assert!(err("hosts: [{name: '..', processes: [p]}]").contains("host name"));
    assert!(err("hosts: [{name: a, processes: [[]]}]").contains("no program"));
    assert!(err("hosts: [{name: a, procs: [p]}]").contains("procs"));
    assert!(err("hosts: [{name: a, root: /x, processes: [p]}]").contains("root"));
    assert!(err("sed: 1\nhosts: [{name: a, processes: [p]}]").contains("sed"));
    assert!(err("processes: [p]").contains("hosts"));
    assert!(err("hosts: [{name: a, processes: [p]").contains("run file"));
}

#[test]
fn a_bad_host_name_is_quoted() {
    let e = parse("hosts:\n  - name: 'a \"b'\n    processes: [./a]\n").err().unwrap();
    assert_eq!(
        e,
        "run file: host name \"a \\\"b\" must be letters, digits, '-' or '.'"
    );
}

#[test]
fn a_float_argument_is_written_short() {
    assert!(matches!(node(&Value::from(1.0)), Node::Float(s) if s == "1"));
    assert!(matches!(node(&Value::from(0.25)), Node::Float(s) if s == "0.25"));
}
