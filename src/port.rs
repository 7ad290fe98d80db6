//! Network interfaces and the pairing of an input with an output interface.
use vstd::prelude::*;

verus! {

/// A network interface: its name and its port index.
#[derive(Clone, Debug)]
pub struct NetIf {
    pub name: String,
    pub index: u32,
}

impl NetIf {
    pub fn new(name: &str, index: u32) -> (r: Self)
        ensures
            r.name@ == name@,
            r.index == index,
    {
        NetIf { name: name.to_owned(), index }
    }
}

/// Frames received on `input` go out on `output`.
#[derive(Clone, Debug)]
pub struct Pipeline {
    pub input: NetIf,
    pub output: NetIf,
}

impl Pipeline {
    pub fn new(input: NetIf, output: NetIf) -> (r: Self)
        ensures
            r.input.name@ == input.name@,
            r.input.index == input.index,
            r.output.name@ == output.name@,
            r.output.index == output.index,
    {
        Pipeline { input, output }
    }
}

/// Why a port could not send a frame.
#[derive(Clone, Copy, Debug, PartialEq, Eq, Structural)]
pub enum PortError {
    TransmitFailed,
}

} // verus!
