use vstd::prelude::*;

use crate::codec::{
    decode_config_response, decode_graph_response, encode_default_config_request,
    encode_graph_request, encode_node_request,
};
use crate::config::{has_key, key_index, PluginConfig, UnknownFieldError};
use crate::graph::{Graph, Node};

verus! {

/// Loading a module failed: its bytes are not a module the sandbox can
/// build, or it does not honor the typed contract.
#[derive(Clone, Copy, PartialEq, Eq, Structural, Debug)]
pub enum LoadError {
    /// The bytes do not form a module the sandbox accepts.
    InvalidModule,
    /// The module lacks a required entry point, an entry point has the
    /// wrong shape, or its declared defaults are not a well-formed
    /// configuration mapping.
    ContractMismatch,
}

/// A fresh sandbox instance of the module could not be started.
#[derive(Clone, Copy, PartialEq, Eq, Structural, Debug)]
pub struct InstantiationError;

/// A call into the running module failed.
#[derive(Clone, Copy, PartialEq, Eq, Structural, Debug)]
pub enum ExecutionError {
    /// The sandboxed call trapped, aborted, or could not be made.
    CallFailed,
    /// The module answered, but its response is not a well-formed graph
    /// envelope.
    ResponseMalformed,
}

#[verifier::external_type_specification]
#[verifier::external_body]
pub struct ExPlugin(extism::Plugin);

/// Relies on extism::PluginBuilder and extism::Plugin: they build a
/// sandboxed instance of the module held in the given bytes, with WASI
/// enabled, no extra host functions, and modest linear-memory
/// reservations, and report an error when the bytes are not such a
/// module or the sandbox cannot be set up.
#[verifier::external_body]
fn new_plugin(module: &Vec<u8>) -> (r: Result<extism::Plugin, ()>)
{
    let mut cfg = wasmtime::Config::new();
    cfg.memory_reservation(0x100_0000);
    cfg.memory_guard_size(0x1_0000);
    cfg.memory_reservation_for_growth(0x10_0000);
    let builder = extism::PluginBuilder::new(module.as_slice()).with_wasi(true)
        .with_wasmtime_config(cfg);
    match extism::CompiledPlugin::new(builder) {
        Ok(compiled) => extism::Plugin::new_from_compiled(&compiled).map_err(|_| ()),
        Err(_) => Err(()),
    }
}

/// Relies on extism::Plugin::function_exists: whether the module exports
/// a function of the given name in the shape the typed contract asks for
/// (no parameters; a 32-bit status result or none).
#[verifier::external_body]
fn plugin_function_exists(p: &extism::Plugin, name: &str) -> (r: bool)
{
    p.function_exists(name)
}

/// Relies on extism::Plugin::call: one synchronous call into the
/// sandboxed module, handing it the request bytes and returning whatever
/// bytes the module produced, or an error when the module trapped,
/// aborted or reported failure. What comes back depends on the module
/// alone; the caller states only what holds of every outcome.
#[verifier::external_body]
fn plugin_call(p: &mut extism::Plugin, name: &str, input: &Vec<u8>) -> (r: Result<Vec<u8>, ()>)
{
    match p.call::<&[u8], Vec<u8>>(name, input.as_slice()) {
        Ok(v) => Ok(v),
        Err(_) => Err(()),
    }
}

/// The typed contract's verdict at load: every entry point must be
/// exported in the expected shape, or the module is turned away with
/// `ContractMismatch` before anything runs.
pub fn check_contract(
    has_default_config: bool,
    has_exec_on_node: bool,
    has_exec_on_graph: bool,
) -> (r: Result<(), LoadError>)
    ensures
        r is Ok <==> has_default_config && has_exec_on_node && has_exec_on_graph,
        r is Err ==> r == Err::<(), LoadError>(LoadError::ContractMismatch),
{
    if has_default_config && has_exec_on_node && has_exec_on_graph {
        Ok(())
    } else {
        Err(LoadError::ContractMismatch)
    }
}

/// A lifecycle phase of one module instance.
pub trait State {

}

/// No module has been loaded yet.
#[derive(Clone, Copy, Debug)]
pub struct NewState {}

/// A module was loaded and its contract verified; its configuration can
/// still be changed.
#[derive(Clone, Debug)]
pub struct InitializedState {
    config: PluginConfig,
    module: Vec<u8>,
}

/// A live sandbox instance together with the frozen configuration
/// snapshot it was started with.
pub struct RunningState {
    config: PluginConfig,
    plugin: extism::Plugin,
}

impl State for NewState {

}

impl State for InitializedState {

}

impl State for RunningState {

}

/// One loaded module instance, in the lifecycle phase its type
/// parameter names. An operation of a phase exists only on the wrapper
/// of that phase, so a call from the wrong phase does not compile.
pub struct Wrapper<S: State> {
    state: S,
}

impl Wrapper<NewState> {
    /// Load a module from its raw bytes. The module is instantiated
    /// once, transiently, solely to verify the typed contract and read
    /// its declared default configuration; that instance is then
    /// discarded. Nothing of the wrapper is built unless the contract
    /// holds and the defaults decode as a configuration mapping.
    pub fn load(module: Vec<u8>) -> (r: Result<Wrapper<InitializedState>, LoadError>)
        ensures
            r matches Ok(w) ==> w.wf() && w.module() == module@,
    {
        let mut transient = match new_plugin(&module) {
            Ok(p) => p,
            Err(_) => {
                return Err(LoadError::InvalidModule);
            },
        };
        let has_default_config = plugin_function_exists(&transient, "default_config");
        let has_exec_on_node = plugin_function_exists(&transient, "exec_on_node");
        let has_exec_on_graph = plugin_function_exists(&transient, "exec_on_graph");
        match check_contract(has_default_config, has_exec_on_node, has_exec_on_graph) {
            Ok(()) => {},
            Err(e) => {
                return Err(e);
            },
        }
        let request = encode_default_config_request();
        let response = match plugin_call(&mut transient, "default_config", &request) {
            Ok(v) => v,
            Err(_) => {
                return Err(LoadError::ContractMismatch);
            },
        };
        let config = match decode_config_response(response.as_slice()) {
            Ok(c) => c,
            Err(_) => {
                return Err(LoadError::ContractMismatch);
            },
        };
        Ok(Wrapper { state: InitializedState { config, module } })
    }
}

impl Wrapper<InitializedState> {
    /// The configuration this wrapper holds.
    pub closed spec fn config(&self) -> Seq<(Seq<char>, Seq<char>)> {
        self.state.config@
    }

    /// The module bytes this wrapper was loaded from.
    pub closed spec fn module(&self) -> Seq<u8> {
        self.state.module@
    }

    /// The configuration is a mapping: no field name repeats.
    pub open spec fn wf(&self) -> bool {
        crate::config::unique_keys(self.config())
    }

    /// The declared configuration field names, in their declared order.
    pub fn get_config_fields(&self) -> (r: Vec<String>)
        ensures
            r@.len() == self.config().len(),
            forall|i: int| 0 <= i < r@.len() ==> (#[trigger] r@[i])@ == self.config()[i].0,
    {
        self.state.config.field_names()
    }

    /// The value one declared configuration field currently holds.
    pub fn get_config_field(&self, name: &str) -> (r: Option<&String>)
        requires
            self.wf(),
        ensures
            r matches Some(v) ==> has_key(self.config(), name@) && v@ == self.config()[key_index(
                self.config(),
                name@,
            )].1,
            r is None <==> !has_key(self.config(), name@),
    {
        self.state.config.get_field(name)
    }

    /// Overwrite one declared configuration field. A name the module did
    /// not declare is turned away, and the configuration is left exactly
    /// as it was: fields can be overwritten, never added or removed.
    pub fn set_config_field(&mut self, field: &str, to: &str) -> (r: Result<
        (),
        UnknownFieldError,
    >)
        requires
            old(self).wf(),
        ensures
            final(self).wf(),
            final(self).module() == old(self).module(),
            r is Ok <==> has_key(old(self).config(), field@),
            r is Ok ==> final(self).config() == old(self).config().update(
                key_index(old(self).config(), field@),
                (field@, to@),
            ),
            r is Err ==> final(self).config() == old(self).config() && r == Err::<
                (),
                UnknownFieldError,
            >(UnknownFieldError),
    {
        self.state.config.set_field(field, to)
    }

    /// Start a fresh sandbox instance of the module. The running wrapper
    /// carries its own copy of the configuration, frozen at this moment:
    /// whatever is done to this wrapper afterwards never reaches an
    /// instance that was already started.
    pub fn start(&self) -> (r: Result<Wrapper<RunningState>, InstantiationError>)
        ensures
            r matches Ok(w) ==> w.config() == self.config(),
            r is Err ==> r == Err::<Wrapper<RunningState>, InstantiationError>(
                InstantiationError,
            ),
    {
        let plugin = match new_plugin(&self.state.module) {
            Ok(p) => p,
            Err(_) => {
                return Err(InstantiationError);
            },
        };
        let config = self.state.config.duplicate();
        Ok(Wrapper { state: RunningState { config, plugin } })
    }
}

impl Wrapper<RunningState> {
    /// The frozen configuration snapshot this instance runs with.
    pub closed spec fn config(&self) -> Seq<(Seq<char>, Seq<char>)> {
        self.state.config@
    }

    /// Execute the module on one node. The request envelope carries the
    /// frozen configuration snapshot and the node; the response must
    /// decode as a graph fragment, which is then well-formed. A failed
    /// call leaves the instance usable, and never touches the snapshot.
    pub fn exec_on_node(&mut self, node: Node) -> (r: Result<Graph, ExecutionError>)
        ensures
            final(self).config() == old(self).config(),
            r matches Ok(g) ==> g.wf(),
    {
        let request = encode_node_request(&self.state.config, &node);
        let response = match plugin_call(&mut self.state.plugin, "exec_on_node", &request) {
            Ok(v) => v,
            Err(_) => {
                return Err(ExecutionError::CallFailed);
            },
        };
        match decode_graph_response(response.as_slice()) {
            Ok(g) => Ok(g),
            Err(_) => Err(ExecutionError::ResponseMalformed),
        }
    }

    /// Execute the module on a whole graph, under the same contract as
    /// `exec_on_node`.
    pub fn exec_on_graph(&mut self, graph: Graph) -> (r: Result<Graph, ExecutionError>)
        ensures
            final(self).config() == old(self).config(),
            r matches Ok(g) ==> g.wf(),
    {
        let request = encode_graph_request(&self.state.config, &graph);
        let response = match plugin_call(&mut self.state.plugin, "exec_on_graph", &request) {
            Ok(v) => v,
            Err(_) => {
                return Err(ExecutionError::CallFailed);
            },
        };
        match decode_graph_response(response.as_slice()) {
            Ok(g) => Ok(g),
            Err(_) => Err(ExecutionError::ResponseMalformed),
        }
    }
}

} // verus!
