//! The errors the engine's operations report.
use vstd::prelude::*;
use crate::ids::{key_index, InputSocketID, NodeID};
use crate::model::DataKind;

verus! {

/// An error of an engine operation.
#[derive(Clone, Copy, Debug, PartialEq, Eq, Structural)]
pub enum EngineError {
    /// The track was not found.
    TrackNotFound,
    /// The node was not found.
    NodeNotFound(NodeID),
    /// The socket was not found.
    SocketNotFound(InputSocketID),
    /// The two socket kinds cannot be linked.
    IncompatibleSockets { from: DataKind, to: DataKind },
    /// The operation would create a cycle in the flow graph.
    WouldCreateCycle,
    /// The graph exceeds the preallocated real-time budget.
    GraphTooLarge,
}

/// The character of decimal digit `d`.
pub open spec fn digit_char(d: int) -> char {
    if d == 0 {
        '0'
    } else if d == 1 {
        '1'
    } else if d == 2 {
        '2'
    } else if d == 3 {
        '3'
    } else if d == 4 {
        '4'
    } else if d == 5 {
        '5'
    } else if d == 6 {
        '6'
    } else if d == 7 {
        '7'
    } else if d == 8 {
        '8'
    } else {
        '9'
    }
}

/// `n` written in decimal, without leading zeros.
pub open spec fn decimal(n: nat) -> Seq<char>
    decreases n,
{
    if n < 10 {
        seq![digit_char(n as int)]
    } else {
        decimal(n / 10).push(digit_char((n % 10) as int))
    }
}

/// How a key prints: its slot index, `v`, and its version.
pub open spec fn key_text(k: u64) -> Seq<char> {
    decimal(key_index(k) as nat) + "v"@ + decimal(k as nat / 0x1_0000_0000)
}

/// The name of a data kind.
pub open spec fn kind_name(k: DataKind) -> Seq<char> {
    match k {
        DataKind::Audio => "Audio"@,
        DataKind::Midi => "Midi"@,
        DataKind::Cv => "Cv"@,
    }
}

/// The message each error reports.
pub open spec fn error_message(e: EngineError) -> Seq<char> {
    match e {
        EngineError::TrackNotFound => "Track was not found"@,
        EngineError::NodeNotFound(n) => "Node NodeID("@ + key_text(n.raw()) + ") was not found"@,
        EngineError::SocketNotFound(s) => "Socket SocketID("@ + key_text(s.raw()) + ") was not found"@,
        EngineError::IncompatibleSockets { from, to } =>
            "Cannot create link between "@ + kind_name(from) + " and "@ + kind_name(to),
        EngineError::WouldCreateCycle => "Attempting this would create a cycle"@,
        EngineError::GraphTooLarge => "graph exceeds preallocated real-time budget; edit ignored"@,
    }
}

/// The text of decimal digit `d`.
fn digit_text(d: u64) -> (r: &'static str)
    requires
        d < 10,
    ensures
        r@ == seq![digit_char(d as int)],
{
    if d == 0 {
        proof { reveal_strlit("0"); }
        "0"
    } else if d == 1 {
        proof { reveal_strlit("1"); }
        "1"
    } else if d == 2 {
        proof { reveal_strlit("2"); }
        "2"
    } else if d == 3 {
        proof { reveal_strlit("3"); }
        "3"
    } else if d == 4 {
        proof { reveal_strlit("4"); }
        "4"
    } else if d == 5 {
        proof { reveal_strlit("5"); }
        "5"
    } else if d == 6 {
        proof { reveal_strlit("6"); }
        "6"
    } else if d == 7 {
        proof { reveal_strlit("7"); }
        "7"
    } else if d == 8 {
        proof { reveal_strlit("8"); }
        "8"
    } else {
        proof { reveal_strlit("9"); }
        "9"
    }
}

/// Appends `n` in decimal to `s`.
fn push_decimal(s: &mut String, n: u64)
    ensures
        final(s)@ == old(s)@ + decimal(n as nat),
    decreases n,
{
    if n >= 10 {
        push_decimal(s, n / 10);
    }
    s.append(digit_text(n % 10));
    proof {
        assert(old(s)@ + decimal(n as nat) =~= if n >= 10 {
            old(s)@ + decimal((n / 10) as nat) + seq![digit_char((n % 10) as int)]
        } else {
            old(s)@ + seq![digit_char(n as int)]
        });
    }
}

/// Appends the printed form of key `k` to `s`.
fn push_key(s: &mut String, k: u64)
    ensures
        final(s)@ == old(s)@ + key_text(k),
{
    push_decimal(s, k % 0x1_0000_0000);
    s.append("v");
    push_decimal(s, k / 0x1_0000_0000);
    proof {
        assert(old(s)@ + key_text(k) =~= old(s)@ + decimal(key_index(k) as nat) + "v"@ + decimal(k as nat / 0x1_0000_0000));
    }
}

/// The printed name of data kind `k`.
fn kind_text(k: DataKind) -> (r: &'static str)
    ensures
        r@ == kind_name(k),
{
    match k {
        DataKind::Audio => "Audio",
        DataKind::Midi => "Midi",
        DataKind::Cv => "Cv",
    }
}

impl EngineError {
    /// The message this error reports.
    pub fn message(&self) -> (r: String)
        ensures
            r@ == error_message(*self),
    {
        match self {
            EngineError::TrackNotFound => "Track was not found".to_owned(),
            EngineError::NodeNotFound(n) => {
                let mut s = String::from_str("Node NodeID(");
                push_key(&mut s, n.to_raw());
                s.append(") was not found");
                s
            },
            EngineError::SocketNotFound(id) => {
                let mut s = String::from_str("Socket SocketID(");
                push_key(&mut s, id.to_raw());
                s.append(") was not found");
                s
            },
            EngineError::IncompatibleSockets { from, to } => {
                let mut s = String::from_str("Cannot create link between ");
                s.append(kind_text(*from));
                s.append(" and ");
                s.append(kind_text(*to));
                s
            },
            EngineError::WouldCreateCycle => "Attempting this would create a cycle".to_owned(),
            EngineError::GraphTooLarge => "graph exceeds preallocated real-time budget; edit ignored".to_owned(),
        }
    }
}

} // verus!
