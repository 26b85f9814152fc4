//! The errors of the library.

use crate::fmt::{dec, push_dec};
use crate::node::NodeId;
use vstd::prelude::*;
use vstd::string::StringExecFns;

verus! {

/// What a fallible operation reports.
#[derive(Clone, Copy, PartialEq, Eq, Structural, Debug)]
pub enum IrError {
    /// An input was to be added to a node that is shared by structure.
    AddToCacheable { node: NodeId },
    /// An input was to be removed from a node that is shared by structure.
    RemoveFromCacheable { node: NodeId },
    /// A node has fewer inputs than the index asks for.
    InputOutOfBounds { node: NodeId, index: usize, len: usize },
    /// A node has another number of outputs.
    OutputCount { node: NodeId, expected: usize, actual: usize },
    /// A node has another number of inputs.
    InputCount { node: NodeId, expected: usize, actual: usize },
    /// A node has no memory output.
    NoMemoryOutput { node: NodeId },
    /// A node has several memory outputs.
    SeveralMemoryOutputs { node: NodeId },
    /// A cursor past the end of its list was asked to replace.
    NullCursor,
    /// The entry did not survive a compaction.
    EntryMissing { node: NodeId },
    /// The type of an integer constant is not an integer type.
    NotAnInteger,
}

/// A node by number.
pub open spec fn node_text(node: NodeId) -> Seq<char> {
    "NodeId("@ + dec(node.0 as nat) + ")"@
}

fn push_node(s: &mut String, node: NodeId)
    ensures
        final(s)@ == old(s)@ + node_text(node),
{
    let ghost start = s@;
    s.append("NodeId(");
    push_dec(s, node.0 as u128);
    s.append(")");
    assert(s@ =~= start + node_text(node));
}

impl IrError {
    /// The error in words.
    pub open spec fn text(self) -> Seq<char> {
        match self {
            IrError::AddToCacheable { node } => "attempted to add input to cacheable node "@
                + node_text(node),
            IrError::RemoveFromCacheable { node } =>
            "attempted to remove input from cacheable node "@ + node_text(node),
            IrError::InputOutOfBounds { node, index, len } => "input index "@ + dec(index as nat)
                + " out of bounds for node "@ + node_text(node) + " (len="@ + dec(len as nat)
                + ")"@,
            IrError::OutputCount { node, expected, actual } => "node "@ + node_text(node)
                + " does not have exactly "@ + dec(expected as nat) + " outputs (has "@ + dec(
                actual as nat,
            ) + ")"@,
            IrError::InputCount { node, expected, actual } => "node "@ + node_text(node)
                + " does not have exactly "@ + dec(expected as nat) + " inputs (has "@ + dec(
                actual as nat,
            ) + ")"@,
            IrError::NoMemoryOutput { node } => "node "@ + node_text(node)
                + " has no Memory output"@,
            IrError::SeveralMemoryOutputs { node } => "node "@ + node_text(node)
                + " has more than one Memory output"@,
            IrError::NullCursor => "attempted to replace a null cursor use"@,
            IrError::EntryMissing { node } => "Function::compact: entry "@ + node_text(node)
                + " missing from remap (invariant violation)"@,
            IrError::NotAnInteger => "the type of an integer constant is not an integer type"@,
        }
    }

    /// The error in words.
    pub fn message(&self) -> (r: String)
        ensures
            r@ == self.text(),
    {
        match *self {
            IrError::AddToCacheable { node } => {
                let mut s = "attempted to add input to cacheable node ".to_owned();
                push_node(&mut s, node);
                s
            },
            IrError::RemoveFromCacheable { node } => {
                let mut s = "attempted to remove input from cacheable node ".to_owned();
                push_node(&mut s, node);
                s
            },
            IrError::InputOutOfBounds { node, index, len } => {
                let mut s = "input index ".to_owned();
                push_dec(&mut s, index as u128);
                s.append(" out of bounds for node ");
                push_node(&mut s, node);
                s.append(" (len=");
                push_dec(&mut s, len as u128);
                s.append(")");
                s
            },
            IrError::OutputCount { node, expected, actual } => {
                let mut s = "node ".to_owned();
                push_node(&mut s, node);
                s.append(" does not have exactly ");
                push_dec(&mut s, expected as u128);
                s.append(" outputs (has ");
                push_dec(&mut s, actual as u128);
                s.append(")");
                s
            },
            IrError::InputCount { node, expected, actual } => {
                let mut s = "node ".to_owned();
                push_node(&mut s, node);
                s.append(" does not have exactly ");
                push_dec(&mut s, expected as u128);
                s.append(" inputs (has ");
                push_dec(&mut s, actual as u128);
                s.append(")");
                s
            },
            IrError::NoMemoryOutput { node } => {
                let mut s = "node ".to_owned();
                push_node(&mut s, node);
                s.append(" has no Memory output");
                s
            },
            IrError::SeveralMemoryOutputs { node } => {
                let mut s = "node ".to_owned();
                push_node(&mut s, node);
                s.append(" has more than one Memory output");
                s
            },
            IrError::NullCursor => "attempted to replace a null cursor use".to_owned(),
            IrError::EntryMissing { node } => {
                let mut s = "Function::compact: entry ".to_owned();
                push_node(&mut s, node);
                s.append(" missing from remap (invariant violation)");
                s
            },
            IrError::NotAnInteger =>
            "the type of an integer constant is not an integer type".to_owned(),
        }
    }
}

/// Every error in words.
pub proof fn law_error_texts(node: NodeId, a: usize, b: usize)
    ensures
        ({
            let who = "NodeId("@ + dec(node.0 as nat) + ")"@;
            &&& (IrError::AddToCacheable { node }).text() == "attempted to add input to cacheable node "@
                + who
            &&& (IrError::RemoveFromCacheable { node }).text()
                == "attempted to remove input from cacheable node "@ + who
            &&& (IrError::InputOutOfBounds { node, index: a, len: b }).text() == "input index "@ + dec(
                a as nat,
            ) + " out of bounds for node "@ + who + " (len="@ + dec(b as nat) + ")"@
            &&& (IrError::OutputCount { node, expected: a, actual: b }).text() == "node "@ + who
                + " does not have exactly "@ + dec(a as nat) + " outputs (has "@ + dec(b as nat)
                + ")"@
            &&& (IrError::InputCount { node, expected: a, actual: b }).text() == "node "@ + who
                + " does not have exactly "@ + dec(a as nat) + " inputs (has "@ + dec(b as nat)
                + ")"@
            &&& (IrError::NoMemoryOutput { node }).text() == "node "@ + who + " has no Memory output"@
            &&& (IrError::SeveralMemoryOutputs { node }).text() == "node "@ + who
                + " has more than one Memory output"@
            &&& IrError::NullCursor.text() == "attempted to replace a null cursor use"@
            &&& (IrError::EntryMissing { node }).text() == "Function::compact: entry "@ + who
                + " missing from remap (invariant violation)"@
        }),
{
}

} // verus!
