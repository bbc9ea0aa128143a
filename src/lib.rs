//! The graph of build units: an in-memory graph, its serialization into an
//! index-based document, and the loading and validation of such a document.

pub mod cli;
pub mod order;
pub mod unit;
pub mod serialized;
pub mod graph;
pub mod laws;

pub use cli::{cli, ArgSpec, CommandSpec};
pub use graph::{emit_serialized_unit_graph, EmitContext, UnitGraph};
pub use serialized::{
    load_serialized_unit_graph, SerializedUnit, SerializedUnitDep, SerializedUnitGraph,
    UnitGraphError, VERSION,
};
pub use unit::{Unit, UnitDep};
