use schnuffel::graph::{Graph, Node};
use schnuffel::plugin::{ExecutionError, LoadError, Wrapper};
use schnuffel::types::IpAddress;

// The test modules are tiny sandboxed modules assembled from text. Each
// exported entry point allocates a fixed byte string in the sandbox
// kernel's memory and hands it back as its response.

fn emit_output_func(name: &str, bytes: &[u8]) -> String {
    let mut f = String::new();
    f.push_str(&format!(
        "  (func (export \"{}\") (result i32)\n    (local $p i64)\n    (local.set $p (call $alloc (i64.const {})))\n",
        name,
        bytes.len()
    ));
    for (i, b) in bytes.iter().enumerate() {
        f.push_str(&format!(
            "    (call $store_u8 (i64.add (local.get $p) (i64.const {})) (i32.const {}))\n",
            i, b
        ));
    }
    f.push_str(&format!(
        "    (call $output_set (local.get $p) (i64.const {}))\n    (i32.const 0))\n",
        bytes.len()
    ));
    f
}

fn emit_trap_func(name: &str) -> String {
    format!("  (func (export \"{}\") (result i32)\n    unreachable)\n", name)
}

fn module_bytes(funcs: &[String]) -> Vec<u8> {
    let text = format!(
        "(module\n  (import \"extism:host/env\" \"alloc\" (func $alloc (param i64) (result i64)))\n  (import \"extism:host/env\" \"store_u8\" (func $store_u8 (param i64 i32)))\n  (import \"extism:host/env\" \"output_set\" (func $output_set (param i64 i64)))\n{})",
        funcs.join("")
    );
    wat::parse_str(&text).unwrap()
}

fn enc_str_bytes_host(s: &str) -> Vec<u8> {
    let chars: Vec<char> = s.chars().collect();
    let mut out = Vec::new();
    out.extend_from_slice(&(chars.len() as u64).to_le_bytes());
    for c in chars {
        out.extend_from_slice(&(c as u32).to_le_bytes());
    }
    out
}

fn config_response_bytes(pairs: &[(&str, &str)]) -> Vec<u8> {
    let mut b = Vec::new();
    b.extend_from_slice(&(pairs.len() as u64).to_le_bytes());
    for (k, v) in pairs {
        b.extend_from_slice(&enc_str_bytes_host(k));
        b.extend_from_slice(&enc_str_bytes_host(v));
    }
    b
}

fn empty_graph_bytes() -> Vec<u8> {
    vec![0u8; 16]
}

// A module with no declared configuration whose calls both return the
// empty graph.
fn empty_graph_module() -> Vec<u8> {
    module_bytes(&[
        emit_output_func("default_config", &config_response_bytes(&[])),
        emit_output_func("exec_on_node", &empty_graph_bytes()),
        emit_output_func("exec_on_graph", &empty_graph_bytes()),
    ])
}

// Loading a module whose declared defaults are `{}`, starting it, and
// executing it on a person node yields an empty graph fragment.
#[test]
fn scenario_empty_module_end_to_end() {
    let configured = Wrapper::load(empty_graph_module()).unwrap();
    assert_eq!(configured.get_config_fields(), Vec::<String>::new());
    let mut running = configured.start().unwrap();
    let result = running.exec_on_node(Node::Person("John Doe".to_string())).unwrap();
    assert_eq!(result.node_count(), 0);
    assert_eq!(result.edge_count(), 0);
}

// A module that does not export `exec_on_graph` is turned away with
// `ContractMismatch` and never reaches the configured state.
#[test]
fn scenario_missing_entry_point_is_contract_mismatch() {
    let module = module_bytes(&[
        emit_output_func("default_config", &config_response_bytes(&[])),
        emit_output_func("exec_on_node", &empty_graph_bytes()),
    ]);
    let r = Wrapper::load(module);
    assert!(matches!(r, Err(LoadError::ContractMismatch)));
}

// A module whose `exec_on_graph` has the wrong shape (it takes a
// parameter) is turned away with `ContractMismatch`.
#[test]
fn scenario_mismatched_signature_is_contract_mismatch() {
    let module = module_bytes(&[
        emit_output_func("default_config", &config_response_bytes(&[])),
        emit_output_func("exec_on_node", &empty_graph_bytes()),
        "  (func (export \"exec_on_graph\") (param i32) (result i32)\n    (local.get 0))\n"
            .to_string(),
    ]);
    let r = Wrapper::load(module);
    assert!(matches!(r, Err(LoadError::ContractMismatch)));
}

// Bytes that are no module at all.
#[test]
fn scenario_invalid_module_bytes() {
    let r = Wrapper::load(vec![1, 2, 3, 4]);
    assert!(matches!(r, Err(LoadError::InvalidModule)));
}

// A module whose declared defaults are not a well-formed configuration
// mapping violates the contract at load.
#[test]
fn scenario_malformed_defaults_are_contract_mismatch() {
    let module = module_bytes(&[
        emit_output_func("default_config", &[9, 9, 9]),
        emit_output_func("exec_on_node", &empty_graph_bytes()),
        emit_output_func("exec_on_graph", &empty_graph_bytes()),
    ]);
    let r = Wrapper::load(module);
    assert!(matches!(r, Err(LoadError::ContractMismatch)));
}

// A module that declares defaults with a repeated field name does not
// declare a mapping: the contract is violated.
#[test]
fn scenario_duplicate_default_fields_are_contract_mismatch() {
    let module = module_bytes(&[
        emit_output_func("default_config", &config_response_bytes(&[("k", "1"), ("k", "2")])),
        emit_output_func("exec_on_node", &empty_graph_bytes()),
        emit_output_func("exec_on_graph", &empty_graph_bytes()),
    ]);
    let r = Wrapper::load(module);
    assert!(matches!(r, Err(LoadError::ContractMismatch)));
}

// A module that traps on `exec_on_node` surfaces an `ExecutionError`,
// and the running instance stays usable for a later `exec_on_graph`.
#[test]
fn scenario_trap_does_not_poison_instance() {
    let module = module_bytes(&[
        emit_output_func("default_config", &config_response_bytes(&[])),
        emit_trap_func("exec_on_node"),
        emit_output_func("exec_on_graph", &empty_graph_bytes()),
    ]);
    let configured = Wrapper::load(module).unwrap();
    let mut running = configured.start().unwrap();
    let failed = running.exec_on_node(Node::IP(IpAddress::v4(10, 0, 0, 1)));
    assert!(matches!(failed, Err(ExecutionError::CallFailed)));
    let ok = running.exec_on_graph(Graph::new()).unwrap();
    assert_eq!(ok.node_count(), 0);
    assert_eq!(ok.edge_count(), 0);
}

// A module that answers `exec_on_node` with bytes that are no graph
// envelope surfaces a decode failure, not a panic.
#[test]
fn scenario_garbage_response_is_execution_error() {
    let module = module_bytes(&[
        emit_output_func("default_config", &config_response_bytes(&[])),
        emit_output_func("exec_on_node", &[1, 2, 3]),
        emit_output_func("exec_on_graph", &empty_graph_bytes()),
    ]);
    let configured = Wrapper::load(module).unwrap();
    let mut running = configured.start().unwrap();
    let r = running.exec_on_node(Node::Person("X".to_string()));
    assert!(matches!(r, Err(ExecutionError::ResponseMalformed)));
}

// Configuration on a loaded module: declared fields can be overwritten,
// undeclared names are reported and change nothing.
#[test]
fn scenario_configuration_protocol() {
    let module = module_bytes(&[
        emit_output_func("default_config", &config_response_bytes(&[("api_key", ""), ("depth", "1")])),
        emit_output_func("exec_on_node", &empty_graph_bytes()),
        emit_output_func("exec_on_graph", &empty_graph_bytes()),
    ]);
    let mut configured = Wrapper::load(module).unwrap();
    assert_eq!(
        configured.get_config_fields(),
        vec!["api_key".to_string(), "depth".to_string()]
    );
    assert_eq!(configured.set_config_field("depth", "5"), Ok(()));
    assert_eq!(configured.get_config_field("depth"), Some(&"5".to_string()));
    let before = configured.get_config_fields();
    assert!(configured.set_config_field("nonexistent", "x").is_err());
    assert_eq!(configured.get_config_fields(), before);
    assert_eq!(configured.get_config_field("nonexistent"), None);
    assert_eq!(configured.get_config_field("depth"), Some(&"5".to_string()));
}

// Mutating the source configured wrapper after `start` never reaches the
// already-running instance: its results do not change.
#[test]
fn scenario_running_config_is_frozen() {
    let module = module_bytes(&[
        emit_output_func("default_config", &config_response_bytes(&[("depth", "1")])),
        emit_output_func("exec_on_node", &empty_graph_bytes()),
        emit_output_func("exec_on_graph", &empty_graph_bytes()),
    ]);
    let mut configured = Wrapper::load(module).unwrap();
    let mut running = configured.start().unwrap();
    let before = running.exec_on_node(Node::Person("John Doe".to_string())).unwrap();
    assert_eq!(configured.set_config_field("depth", "99"), Ok(()));
    let after = running.exec_on_node(Node::Person("John Doe".to_string())).unwrap();
    assert_eq!(before, after);
    assert_eq!(after.node_count(), 0);
    // the source wrapper still carries its own, newer value
    assert_eq!(configured.get_config_field("depth"), Some(&"99".to_string()));
}

// A discarded running instance does not disturb a fresh start from the
// same configured wrapper.
#[test]
fn scenario_restart_from_configured() {
    let configured = Wrapper::load(empty_graph_module()).unwrap();
    let mut first = configured.start().unwrap();
    let r1 = first.exec_on_graph(Graph::new()).unwrap();
    assert_eq!(r1.node_count(), 0);
    drop(first);
    let mut second = configured.start().unwrap();
    let r2 = second.exec_on_graph(Graph::new()).unwrap();
    assert_eq!(r2.node_count(), 0);
}

// A module that hands back a one-vertex fragment; the fragment arrives
// intact and merges into a working graph.
#[test]
fn scenario_fragment_returned_and_merged() {
    let mut fragment = Graph::new();
    fragment.add_node(Node::Person("Found Person".to_string()));
    let fragment_bytes = schnuffel::codec::graph_to_bytes(&fragment);
    let module = module_bytes(&[
        emit_output_func("default_config", &config_response_bytes(&[])),
        emit_output_func("exec_on_node", &fragment_bytes),
        emit_output_func("exec_on_graph", &fragment_bytes),
    ]);
    let configured = Wrapper::load(module).unwrap();
    let mut running = configured.start().unwrap();
    let got = running.exec_on_node(Node::Person("John Doe".to_string())).unwrap();
    assert_eq!(got, fragment);

    let mut working = Graph::new();
    let seed = working.add_node(Node::Person("John Doe".to_string()));
    working.merge_from(got);
    assert_eq!(working.node_count(), 2);
    assert_eq!(working.get_node(seed), &Node::Person("John Doe".to_string()));
    assert_eq!(working.get_node(1), &Node::Person("Found Person".to_string()));
}
