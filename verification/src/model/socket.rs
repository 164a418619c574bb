//! Sockets: the typed endpoints of nodes.
use vstd::prelude::*;
use crate::ids::NodeID;
use crate::model::DataKind;

verus! {

/// Whether a socket takes signal in or gives it out.
#[derive(Clone, Copy, Debug, PartialEq, Eq, Structural)]
pub enum SocketDirection {
    Input,
    Output,
}

/// The shape of a socket as a node declares it.
#[derive(Clone, Debug)]
pub struct Socket {
    pub kind: DataKind,
    pub name: String,
    pub visible: bool,
}

/// A socket's shape as a plain value: kind, name, visibility.
pub type SocketShape = (DataKind, Seq<char>, bool);

impl Socket {
    /// The shape of this socket.
    pub open spec fn shape(self) -> SocketShape {
        (self.kind, self.name@, self.visible)
    }

    /// Creates a new `Socket`.
    pub fn new(kind: DataKind, name: String, visible: bool) -> (r: Self)
        ensures
            r.kind == kind,
            r.name == name,
            r.visible == visible,
    {
        Socket { kind, name, visible }
    }
}

/// A registered socket: its shape plus the node that owns it and its
/// direction.
#[derive(Clone, Debug)]
pub struct SocketMeta {
    pub owner: NodeID,
    pub direction: SocketDirection,
    pub kind: DataKind,
    pub name: String,
    pub visible: bool,
}

/// `m` is the registration of a socket of shape `sh`, owned by `owner`, in
/// direction `dir`.
pub open spec fn registers(m: SocketMeta, owner: NodeID, dir: SocketDirection, sh: SocketShape) -> bool {
    &&& m.owner == owner
    &&& m.direction == dir
    &&& m.kind == sh.0
    &&& m.name@ == sh.1
    &&& m.visible == sh.2
}

impl SocketMeta {
    /// Creates a new `SocketMeta`.
    pub fn new(
        owner: NodeID,
        direction: SocketDirection,
        name: String,
        kind: DataKind,
        visible: bool,
    ) -> (r: SocketMeta)
        ensures
            r.owner == owner,
            r.direction == direction,
            r.name == name,
            r.kind == kind,
            r.visible == visible,
    {
        SocketMeta { owner, direction, kind, name, visible }
    }

    /// Registers a declared socket for `owner` in direction `direction`.
    pub fn register(owner: NodeID, direction: SocketDirection, socket: Socket) -> (r: SocketMeta)
        ensures
            registers(r, owner, direction, socket.shape()),
    {
        SocketMeta { owner, direction, kind: socket.kind, name: socket.name, visible: socket.visible }
    }
}

} // verus!
