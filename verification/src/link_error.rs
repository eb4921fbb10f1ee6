//! The errors of linking: their kinds and the text that describes each.

use vstd::prelude::*;
use vstd::string::*;
use crate::text::{decimal, push_decimal};

verus! {

/// The ways in which linking fails.
#[derive(PartialEq, Eq, Debug, Copy, Clone, Structural)]
pub enum ErrorKind {
    Recursion,
    MismatchedWireSize,
    DuplicateWireName,
    MissingIOWires,
    UnknownModule,
    UnknownWire,
    IncorrectWireKind,
    MultipleDrivers,
    NoDriver,
}

/// A link error: its kind, and a description that names what is at fault.
#[derive(Debug)]
pub struct LinkError {
    pub kind: ErrorKind,
    pub description: String,
}

pub type LinkResult<T> = Result<T, LinkError>;

pub ghost struct LinkErrorView {
    pub kind: ErrorKind,
    pub description: Seq<char>,
}

impl View for LinkError {
    type V = LinkErrorView;

    open spec fn view(&self) -> LinkErrorView {
        LinkErrorView { kind: self.kind, description: self.description@ }
    }
}

impl LinkError {
    /// The failed result that carries this kind and description.
    pub fn new<T>(kind: ErrorKind, description: String) -> (r: LinkResult<T>)
        ensures
            r is Err,
            r->Err_0@ == (LinkErrorView { kind, description: description@ }),
    {
        Err(Self { description, kind })
    }
}

/// The error for a module that is already being linked further up.
pub open spec fn recursion_error(module: Seq<char>) -> LinkErrorView {
    LinkErrorView {
        kind: ErrorKind::Recursion,
        description: "Module '"@ + module + "' has a recursive definition."@,
    }
}

/// Builds the error for a module that is already being linked further up.
pub fn recursion(module: &str) -> (e: LinkError)
    ensures
        e@ == recursion_error(module@),
{
    let mut text = String::from_str("Module '");
    text.append(module);
    text.append("' has a recursive definition.");
    assert(text@ =~= recursion_error(module@).description);
    LinkError { kind: ErrorKind::Recursion, description: text }
}

/// The error for a wire name that a module declares more than once.
pub open spec fn duplicate_wire_error(wire: Seq<char>) -> LinkErrorView {
    LinkErrorView {
        kind: ErrorKind::DuplicateWireName,
        description: "Wire '"@ + wire + "' is being defined multiple times."@,
    }
}

/// Builds the error for a wire name that a module declares more than once.
pub fn duplicate_wire(wire: &str) -> (e: LinkError)
    ensures
        e@ == duplicate_wire_error(wire@),
{
    let mut text = String::from_str("Wire '");
    text.append(wire);
    text.append("' is being defined multiple times.");
    assert(text@ =~= duplicate_wire_error(wire@).description);
    LinkError { kind: ErrorKind::DuplicateWireName, description: text }
}

/// The error for a range that does not lie inside the wire it selects from.
pub open spec fn bad_range_error(from: nat, to: nat, wire: Seq<char>, width: nat, module: Seq<char>) -> LinkErrorView {
    LinkErrorView {
        kind: ErrorKind::MismatchedWireSize,
        description: "["@ + decimal(from) + ":"@ + decimal(to) + "] is not a valid subset of Wire '"@ + wire + "["@ + decimal(width) + "]' in Module '"@ + module + "'."@,
    }
}

/// Builds the error for a range that does not lie inside the wire it selects from.
pub fn bad_range(from: usize, to: usize, wire: &str, width: usize, module: &str) -> (e: LinkError)
    ensures
        e@ == bad_range_error(from as nat, to as nat, wire@, width as nat, module@),
{
    let mut text = String::from_str("[");
    push_decimal(&mut text, from as u64);
    text.append(":");
    push_decimal(&mut text, to as u64);
    text.append("] is not a valid subset of Wire '");
    text.append(wire);
    text.append("[");
    push_decimal(&mut text, width as u64);
    text.append("]' in Module '");
    text.append(module);
    text.append("'.");
    assert(text@ =~= bad_range_error(from as nat, to as nat, wire@, width as nat, module@).description);
    LinkError { kind: ErrorKind::MismatchedWireSize, description: text }
}

/// The error for a bus part that names no wire of the module.
pub open spec fn unknown_local_error(module: Seq<char>, wire: Seq<char>) -> LinkErrorView {
    LinkErrorView {
        kind: ErrorKind::UnknownWire,
        description: "In module '"@ + module + "': No local wire with name '"@ + wire + "'."@,
    }
}

/// Builds the error for a bus part that names no wire of the module.
pub fn unknown_local(module: &str, wire: &str) -> (e: LinkError)
    ensures
        e@ == unknown_local_error(module@, wire@),
{
    let mut text = String::from_str("In module '");
    text.append(module);
    text.append("': No local wire with name '");
    text.append(wire);
    text.append("'.");
    assert(text@ =~= unknown_local_error(module@, wire@).description);
    LinkError { kind: ErrorKind::UnknownWire, description: text }
}

/// The error for a connection that names no wire of the instantiated module.
pub open spec fn unknown_port_error(module: Seq<char>, instance: Seq<char>, wire: Seq<char>) -> LinkErrorView {
    LinkErrorView {
        kind: ErrorKind::UnknownWire,
        description: "In module '"@ + module + "' in module instantiation '"@ + instance + "': No I/O wire with name '"@ + wire + "'."@,
    }
}

/// Builds the error for a connection that names no wire of the instantiated module.
pub fn unknown_port(module: &str, instance: &str, wire: &str) -> (e: LinkError)
    ensures
        e@ == unknown_port_error(module@, instance@, wire@),
{
    let mut text = String::from_str("In module '");
    text.append(module);
    text.append("' in module instantiation '");
    text.append(instance);
    text.append("': No I/O wire with name '");
    text.append(wire);
    text.append("'.");
    assert(text@ =~= unknown_port_error(module@, instance@, wire@).description);
    LinkError { kind: ErrorKind::UnknownWire, description: text }
}

/// The error for a connection to a wire that is not a port of the expected direction.
pub open spec fn wrong_kind_error(instance: Seq<char>, module: Seq<char>, wire: Seq<char>) -> LinkErrorView {
    LinkErrorView {
        kind: ErrorKind::IncorrectWireKind,
        description: "Module Instantiation '"@ + instance + "' in '"@ + module + "': Wire '"@ + wire + "' is not of the correct type."@,
    }
}

/// Builds the error for a connection to a wire that is not a port of the expected direction.
pub fn wrong_kind(instance: &str, module: &str, wire: &str) -> (e: LinkError)
    ensures
        e@ == wrong_kind_error(instance@, module@, wire@),
{
    let mut text = String::from_str("Module Instantiation '");
    text.append(instance);
    text.append("' in '");
    text.append(module);
    text.append("': Wire '");
    text.append(wire);
    text.append("' is not of the correct type.");
    assert(text@ =~= wrong_kind_error(instance@, module@, wire@).description);
    LinkError { kind: ErrorKind::IncorrectWireKind, description: text }
}

/// The error for a bus whose width differs from that of the port it is bound to.
pub open spec fn bad_port_size_error(wire: Seq<char>, module: Seq<char>, width: nat, passed: nat) -> LinkErrorView {
    LinkErrorView {
        kind: ErrorKind::MismatchedWireSize,
        description: "Wire '"@ + wire + "' of module '"@ + module + "' has a wire size of '"@ + decimal(width) + "', but passed a wire size of "@ + decimal(passed) + "."@,
    }
}

/// Builds the error for a bus whose width differs from that of the port it is bound to.
pub fn bad_port_size(wire: &str, module: &str, width: usize, passed: usize) -> (e: LinkError)
    ensures
        e@ == bad_port_size_error(wire@, module@, width as nat, passed as nat),
{
    let mut text = String::from_str("Wire '");
    text.append(wire);
    text.append("' of module '");
    text.append(module);
    text.append("' has a wire size of '");
    push_decimal(&mut text, width as u64);
    text.append("', but passed a wire size of ");
    push_decimal(&mut text, passed as u64);
    text.append(".");
    assert(text@ =~= bad_port_size_error(wire@, module@, width as nat, passed as nat).description);
    LinkError { kind: ErrorKind::MismatchedWireSize, description: text }
}

/// The error for an instance of a module that does not exist.
pub open spec fn unknown_module_error(module: Seq<char>, child: Seq<char>) -> LinkErrorView {
    LinkErrorView {
        kind: ErrorKind::UnknownModule,
        description: "In module '"@ + module + "': No module with name '"@ + child + "'."@,
    }
}

/// Builds the error for an instance of a module that does not exist.
pub fn unknown_module(module: &str, child: &str) -> (e: LinkError)
    ensures
        e@ == unknown_module_error(module@, child@),
{
    let mut text = String::from_str("In module '");
    text.append(module);
    text.append("': No module with name '");
    text.append(child);
    text.append("'.");
    assert(text@ =~= unknown_module_error(module@, child@).description);
    LinkError { kind: ErrorKind::UnknownModule, description: text }
}

/// The error for a port that an instance leaves unbound.
pub open spec fn missing_io_error(wire: Seq<char>, instance: Seq<char>, module: Seq<char>) -> LinkErrorView {
    LinkErrorView {
        kind: ErrorKind::MissingIOWires,
        description: "Wire '"@ + wire + "' in Instance '"@ + instance + "' in Module '"@ + module + "' has not been assigned."@,
    }
}

/// Builds the error for a port that an instance leaves unbound.
pub fn missing_io(wire: &str, instance: &str, module: &str) -> (e: LinkError)
    ensures
        e@ == missing_io_error(wire@, instance@, module@),
{
    let mut text = String::from_str("Wire '");
    text.append(wire);
    text.append("' in Instance '");
    text.append(instance);
    text.append("' in Module '");
    text.append(module);
    text.append("' has not been assigned.");
    assert(text@ =~= missing_io_error(wire@, instance@, module@).description);
    LinkError { kind: ErrorKind::MissingIOWires, description: text }
}

/// The error for a wire bit that is driven more than once.
pub open spec fn multiple_drivers_error(wire: Seq<char>, bit: nat, module: Seq<char>, count: nat) -> LinkErrorView {
    LinkErrorView {
        kind: ErrorKind::MultipleDrivers,
        description: "wire '"@ + wire + "["@ + decimal(bit) + "]' in module '"@ + module + "' is being driven "@ + decimal(count) + " times, expected 1 times."@,
    }
}

/// Builds the error for a wire bit that is driven more than once.
pub fn multiple_drivers(wire: &str, bit: usize, module: &str, count: usize) -> (e: LinkError)
    ensures
        e@ == multiple_drivers_error(wire@, bit as nat, module@, count as nat),
{
    let mut text = String::from_str("wire '");
    text.append(wire);
    text.append("[");
    push_decimal(&mut text, bit as u64);
    text.append("]' in module '");
    text.append(module);
    text.append("' is being driven ");
    push_decimal(&mut text, count as u64);
    text.append(" times, expected 1 times.");
    assert(text@ =~= multiple_drivers_error(wire@, bit as nat, module@, count as nat).description);
    LinkError { kind: ErrorKind::MultipleDrivers, description: text }
}

/// The error for a wire bit that nothing drives.
pub open spec fn no_driver_error(wire: Seq<char>, bit: nat, module: Seq<char>) -> LinkErrorView {
    LinkErrorView {
        kind: ErrorKind::NoDriver,
        description: "wire '"@ + wire + "["@ + decimal(bit) + "]' in module '"@ + module + "' is not being driven."@,
    }
}

/// Builds the error for a wire bit that nothing drives.
pub fn no_driver(wire: &str, bit: usize, module: &str) -> (e: LinkError)
    ensures
        e@ == no_driver_error(wire@, bit as nat, module@),
{
    let mut text = String::from_str("wire '");
    text.append(wire);
    text.append("[");
    push_decimal(&mut text, bit as u64);
    text.append("]' in module '");
    text.append(module);
    text.append("' is not being driven.");
    assert(text@ =~= no_driver_error(wire@, bit as nat, module@).description);
    LinkError { kind: ErrorKind::NoDriver, description: text }
}

} // verus!
