//! The computations that the nodes of a texture graph carry.

use vstd::prelude::*;

verus! {

/// The values behind a sequence of references.
pub open spec fn values_of<T>(inputs: Seq<&T>) -> Seq<T> {
    inputs.map_values(|input: &T| *input)
}

/// A computation with a fixed number of inputs.
///
/// The graph hands `generate` as many inputs as `inputs` announced when the node was
/// added, in the order of its slots. `accepts`, `produces` and `refuses` let a verified
/// transformer say which counts it announces, what it computes and which inputs it turns
/// down; a transformer that leaves them as they are says nothing.
pub trait TextureTransformer<T> {
    /// `generate` can be handed `count` inputs.
    open spec fn accepts(&self, count: nat) -> bool {
        true
    }

    /// `generate` may answer inputs with the values `inputs` with `output`.
    open spec fn produces(&self, inputs: Seq<T>, output: T) -> bool {
        true
    }

    /// Computes the value of the node from the values of the nodes that feed it.
    fn generate(&self, inputs: Vec<&T>) -> (output: T)
        requires
            self.accepts(inputs@.len()),
        ensures
            self.produces(values_of(inputs@), output),
    ;

    /// The number of inputs that `generate` expects.
    fn inputs(&self) -> (count: usize)
        ensures
            self.accepts(count as nat),
    ;

    /// Whether `generate` can work on these inputs, as on images of one size. The answer
    /// is no only for inputs that the transformer refuses; by default it is always yes.
    fn is_valid(&self, inputs: &Vec<&T>) -> (valid: bool)
        ensures
            !valid ==> self.refuses(values_of(inputs@)),
        default_ensures
            valid,
    {
        true
    }

    /// `is_valid` may answer inputs with the values `inputs` with no.
    open spec fn refuses(&self, inputs: Seq<T>) -> bool {
        true
    }
}

/// Holds a value of any type. A boxed trait object that sits in a field of its own
/// type is converted on its way into the field, and Verus then knows nothing of what the
/// field holds; inside a holder it arrives as it was given.
pub struct Held<F> {
    pub value: F,
}

/// A named transformer.
#[verifier::reject_recursive_types(T)]
pub struct Node<T> {
    pub name: String,
    function: Held<Box<dyn TextureTransformer<T>>>,
}

impl<T> Node<T> {
    /// The name of the node.
    pub closed spec fn label(&self) -> Seq<char> {
        self.name@
    }

    /// The transformer of the node can be handed `count` inputs.
    pub closed spec fn accepts(&self, count: nat) -> bool {
        self.function.value.accepts(count)
    }

    /// The transformer of the node may answer inputs with the values `inputs` with
    /// `output`.
    pub closed spec fn produces(&self, inputs: Seq<T>, output: T) -> bool {
        self.function.value.produces(inputs, output)
    }

    /// A node with the given name and transformer.
    pub fn new(name: String, function: Box<dyn TextureTransformer<T>>) -> (node: Self)
        ensures
            node.label() == name@,
            forall|count: nat| node.accepts(count) == function.accepts(count),
            forall|inputs: Seq<T>, output: T|
                node.produces(inputs, output) == function.produces(inputs, output),
            forall|inputs: Seq<T>| node.refuses(inputs) == function.refuses(inputs),
    {
        let function = Held { value: function };
        Node { name, function }
    }

    /// The number of inputs that the transformer announces.
    pub(crate) fn inputs(&self) -> (count: usize)
        ensures
            self.accepts(count as nat),
    {
        self.function.value.inputs()
    }

    /// Whether the transformer takes these inputs: the answer of its `is_valid`, which is
    /// no only for inputs that the transformer refuses.
    pub(crate) fn is_valid(&self, inputs: &Vec<&T>) -> (valid: bool)
        ensures
            !valid ==> self.refuses(values_of(inputs@)),
    {
        self.function.value.is_valid(inputs)
    }

    /// Runs the transformer on the inputs.
    pub(crate) fn generate(&self, inputs: Vec<&T>) -> (output: T)
        requires
            self.accepts(inputs@.len()),
        ensures
            self.produces(values_of(inputs@), output),
    {
        self.function.value.generate(inputs)
    }

    /// The transformer of the node may answer inputs with the values `inputs` with no
    /// when it is asked whether they are valid.
    pub closed spec fn refuses(&self, inputs: Seq<T>) -> bool {
        self.function.value.refuses(inputs)
    }
}

} // verus!
