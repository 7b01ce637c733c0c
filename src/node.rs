use vstd::prelude::*;

verus! {

/// Identifier for an input port (unique within its node).
#[derive(Clone, Copy, Debug, PartialEq, Eq, Structural, Hash)]
pub struct InputId(pub u32);

/// Identifier for a node (unique within its graph).
#[derive(Clone, Copy, Debug, PartialEq, Eq, Structural, Hash)]
pub struct NodeId(pub u32);

/// Identifier for an output port (unique within its node).
#[derive(Clone, Copy, Debug, PartialEq, Eq, Structural, Hash)]
pub struct OutputId(pub u32);

/// What a node holds, as far as its ports and values go: the model through
/// which verified callers follow the effect of each call on a node.
pub trait NodeModel: Sized {
    /// The value carried by one port.
    type Value;

    /// The current value of output `id`.
    spec fn output_of(&self, id: OutputId) -> Self::Value;

    /// This state with input `id` overwritten by `v`.
    spec fn with_input(&self, id: InputId, v: Self::Value) -> Self;

    /// This state after one processing step.
    spec fn stepped(&self) -> Self;

    /// Whether the node declares input `id`.
    spec fn has_input(&self, id: InputId) -> bool;

    /// Whether the node declares output `id`.
    spec fn has_output(&self, id: OutputId) -> bool;

    /// Whether the node introduces a processing delay of one cycle.
    spec fn delays(&self) -> bool;
}

/// Abstract processing node with inputs and outputs.
///
/// The values that flow along connections are of the node's `Value` type; every
/// node kind that goes into one graph uses the same one, and the same `Model`.
pub trait Node {
    /// The value carried by one port.
    type Value;

    /// The model of the node's contents.
    type Model: NodeModel<Value = Self::Value>;

    /// The node's current contents.
    spec fn model(&self) -> Self::Model;

    /// Returns whether the node introduces a processing delay of one cycle.
    fn delayed_processing(&self) -> (r: bool)
        ensures
            r == self.model().delays(),
    ;

    /// Returns the current value of an output.
    fn get_output(&self, id: OutputId) -> (r: Self::Value)
        ensures
            r == self.model().output_of(id),
    ;

    /// Returns all available inputs.
    fn list_inputs(&self) -> (r: &[InputId])
        ensures
            forall|x: InputId| #[trigger] r@.contains(x) <==> self.model().has_input(x),
    ;

    /// Returns all available outputs.
    fn list_outputs(&self) -> (r: &[OutputId])
        ensures
            forall|x: OutputId| #[trigger] r@.contains(x) <==> self.model().has_output(x),
    ;

    /// Recomputes the outputs from the current inputs.
    fn process(&mut self)
        ensures
            final(self).model() == old(self).model().stepped(),
    ;

    /// Overwrites the value of an input.
    fn set_input(&mut self, id: InputId, value: Self::Value)
        ensures
            final(self).model() == old(self).model().with_input(id, value),
    ;
}

impl<N: Node + ?Sized> Node for Box<N> {
    type Value = N::Value;

    type Model = N::Model;

    open spec fn model(&self) -> N::Model {
        (**self).model()
    }

    fn delayed_processing(&self) -> bool {
        (**self).delayed_processing()
    }

    fn get_output(&self, id: OutputId) -> N::Value {
        (**self).get_output(id)
    }

    fn list_inputs(&self) -> &[InputId] {
        (**self).list_inputs()
    }

    fn list_outputs(&self) -> &[OutputId] {
        (**self).list_outputs()
    }

    fn process(&mut self) {
        (**self).process()
    }

    fn set_input(&mut self, id: InputId, value: N::Value) {
        (**self).set_input(id, value)
    }
}

} // verus!
