use vstd::prelude::*;

verus! {

/// A node of the render graph.
pub struct RenderGraphNode {
    inputs_descriptors: (),
    executor: (),
}

/// What a node reads when it runs.
pub trait RenderGraphNodeInput {
}

/// The description of a node input, turned into the input when the node runs.
pub trait RenderGraphNodeInputDescriptor {
    type NodeInput: RenderGraphNodeInput;

    /// The input this description turns into.
    spec fn input(&self) -> Self::NodeInput;

    /// Turns the description into the input it describes.
    fn into_input(self) -> (r: Self::NodeInput)
        ensures
            r == self.input(),
    ;
}

/// A buffer a node reads.
pub struct RenderGraphBufferInput {}

impl RenderGraphNodeInput for RenderGraphBufferInput {
}

/// The description of a buffer a node reads.
pub struct RenderGraphBufferInputDescriptor {}

/// Collects the input descriptions of a node, one `with` at a time.
pub struct RenderGraphNodeBuilder<I> {
    identifier: String,
    desc: I,
}

impl<I> RenderGraphNodeBuilder<I> {
    /// The node's identifier.
    pub closed spec fn spec_identifier(&self) -> Seq<char> {
        self.identifier@
    }

    /// The input descriptions collected so far, in order.
    pub closed spec fn spec_desc(&self) -> I {
        self.desc
    }
}

impl RenderGraphNodeBuilder<()> {
    /// A builder for the node `identifier`, without inputs.
    pub fn new(identifier: String) -> (r: Self)
        ensures
            r.spec_identifier() == identifier@,
    {
        Self { identifier, desc: () }
    }
}

impl RenderGraphNodeBuilder<()> {
    /// The builder with `desc` added after the inputs collected so far.
    pub fn with<D: RenderGraphNodeInputDescriptor>(self, desc: D) -> (r: RenderGraphNodeBuilder<(D,)>)
        ensures
            r.spec_identifier() == self.spec_identifier(),
            r.spec_desc() == (desc,),
    {
        let () = self.desc;
        RenderGraphNodeBuilder { identifier: self.identifier, desc: (desc,) }
    }
}

impl<P0: RenderGraphNodeInputDescriptor> RenderGraphNodeBuilder<(P0,)> {
    /// The builder with `desc` added after the inputs collected so far.
    pub fn with<D: RenderGraphNodeInputDescriptor>(self, desc: D) -> (r: RenderGraphNodeBuilder<(P0, D)>)
        ensures
            r.spec_identifier() == self.spec_identifier(),
            r.spec_desc() == (self.spec_desc().0, desc),
    {
        let (p0,) = self.desc;
        RenderGraphNodeBuilder { identifier: self.identifier, desc: (p0, desc) }
    }
}

impl<P0: RenderGraphNodeInputDescriptor, P1: RenderGraphNodeInputDescriptor> RenderGraphNodeBuilder<(P0, P1, )> {
    /// The builder with `desc` added after the inputs collected so far.
    pub fn with<D: RenderGraphNodeInputDescriptor>(self, desc: D) -> (r: RenderGraphNodeBuilder<(P0, P1, D)>)
        ensures
            r.spec_identifier() == self.spec_identifier(),
            r.spec_desc() == (self.spec_desc().0, self.spec_desc().1, desc),
    {
        let (p0, p1, ) = self.desc;
        RenderGraphNodeBuilder { identifier: self.identifier, desc: (p0, p1, desc) }
    }
}

impl<P0: RenderGraphNodeInputDescriptor, P1: RenderGraphNodeInputDescriptor, P2: RenderGraphNodeInputDescriptor> RenderGraphNodeBuilder<(P0, P1, P2, )> {
    /// The builder with `desc` added after the inputs collected so far.
    pub fn with<D: RenderGraphNodeInputDescriptor>(self, desc: D) -> (r: RenderGraphNodeBuilder<(P0, P1, P2, D)>)
        ensures
            r.spec_identifier() == self.spec_identifier(),
            r.spec_desc() == (self.spec_desc().0, self.spec_desc().1, self.spec_desc().2, desc),
    {
        let (p0, p1, p2, ) = self.desc;
        RenderGraphNodeBuilder { identifier: self.identifier, desc: (p0, p1, p2, desc) }
    }
}

impl<P0: RenderGraphNodeInputDescriptor, P1: RenderGraphNodeInputDescriptor, P2: RenderGraphNodeInputDescriptor, P3: RenderGraphNodeInputDescriptor> RenderGraphNodeBuilder<(P0, P1, P2, P3, )> {
    /// The builder with `desc` added after the inputs collected so far.
    pub fn with<D: RenderGraphNodeInputDescriptor>(self, desc: D) -> (r: RenderGraphNodeBuilder<(P0, P1, P2, P3, D)>)
        ensures
            r.spec_identifier() == self.spec_identifier(),
            r.spec_desc() == (self.spec_desc().0, self.spec_desc().1, self.spec_desc().2, self.spec_desc().3, desc),
    {
        let (p0, p1, p2, p3, ) = self.desc;
        RenderGraphNodeBuilder { identifier: self.identifier, desc: (p0, p1, p2, p3, desc) }
    }
}

impl<P0: RenderGraphNodeInputDescriptor, P1: RenderGraphNodeInputDescriptor, P2: RenderGraphNodeInputDescriptor, P3: RenderGraphNodeInputDescriptor, P4: RenderGraphNodeInputDescriptor> RenderGraphNodeBuilder<(P0, P1, P2, P3, P4, )> {
    /// The builder with `desc` added after the inputs collected so far.
    pub fn with<D: RenderGraphNodeInputDescriptor>(self, desc: D) -> (r: RenderGraphNodeBuilder<(P0, P1, P2, P3, P4, D)>)
        ensures
            r.spec_identifier() == self.spec_identifier(),
            r.spec_desc() == (self.spec_desc().0, self.spec_desc().1, self.spec_desc().2, self.spec_desc().3, self.spec_desc().4, desc),
    {
        let (p0, p1, p2, p3, p4, ) = self.desc;
        RenderGraphNodeBuilder { identifier: self.identifier, desc: (p0, p1, p2, p3, p4, desc) }
    }
}

impl<P0: RenderGraphNodeInputDescriptor, P1: RenderGraphNodeInputDescriptor, P2: RenderGraphNodeInputDescriptor, P3: RenderGraphNodeInputDescriptor, P4: RenderGraphNodeInputDescriptor, P5: RenderGraphNodeInputDescriptor> RenderGraphNodeBuilder<(P0, P1, P2, P3, P4, P5, )> {
    /// The builder with `desc` added after the inputs collected so far.
    pub fn with<D: RenderGraphNodeInputDescriptor>(self, desc: D) -> (r: RenderGraphNodeBuilder<(P0, P1, P2, P3, P4, P5, D)>)
        ensures
            r.spec_identifier() == self.spec_identifier(),
            r.spec_desc() == (self.spec_desc().0, self.spec_desc().1, self.spec_desc().2, self.spec_desc().3, self.spec_desc().4, self.spec_desc().5, desc),
    {
        let (p0, p1, p2, p3, p4, p5, ) = self.desc;
        RenderGraphNodeBuilder { identifier: self.identifier, desc: (p0, p1, p2, p3, p4, p5, desc) }
    }
}

impl<P0: RenderGraphNodeInputDescriptor, P1: RenderGraphNodeInputDescriptor, P2: RenderGraphNodeInputDescriptor, P3: RenderGraphNodeInputDescriptor, P4: RenderGraphNodeInputDescriptor, P5: RenderGraphNodeInputDescriptor, P6: RenderGraphNodeInputDescriptor> RenderGraphNodeBuilder<(P0, P1, P2, P3, P4, P5, P6, )> {
    /// The builder with `desc` added after the inputs collected so far.
    pub fn with<D: RenderGraphNodeInputDescriptor>(self, desc: D) -> (r: RenderGraphNodeBuilder<(P0, P1, P2, P3, P4, P5, P6, D)>)
        ensures
            r.spec_identifier() == self.spec_identifier(),
            r.spec_desc() == (self.spec_desc().0, self.spec_desc().1, self.spec_desc().2, self.spec_desc().3, self.spec_desc().4, self.spec_desc().5, self.spec_desc().6, desc),
    {
        let (p0, p1, p2, p3, p4, p5, p6, ) = self.desc;
        RenderGraphNodeBuilder { identifier: self.identifier, desc: (p0, p1, p2, p3, p4, p5, p6, desc) }
    }
}

impl RenderGraphNodeInput for () {
}

impl RenderGraphNodeInputDescriptor for () {
    type NodeInput = ();

    open spec fn input(&self) -> Self::NodeInput {
        ()
    }

    fn into_input(self) -> (r: Self::NodeInput) {
        let () = self;
        ()
    }
}

impl<P0: RenderGraphNodeInput> RenderGraphNodeInput for (P0,) {
}

impl<P0: RenderGraphNodeInputDescriptor> RenderGraphNodeInputDescriptor for (P0,) {
    type NodeInput = (P0::NodeInput,);

    open spec fn input(&self) -> Self::NodeInput {
        (self.0.input(),)
    }

    fn into_input(self) -> (r: Self::NodeInput) {
        let (p0,) = self;
        (p0.into_input(),)
    }
}

impl<P0: RenderGraphNodeInput, P1: RenderGraphNodeInput> RenderGraphNodeInput for (P0, P1, ) {
}

impl<P0: RenderGraphNodeInputDescriptor, P1: RenderGraphNodeInputDescriptor> RenderGraphNodeInputDescriptor for (P0, P1, ) {
    type NodeInput = (P0::NodeInput, P1::NodeInput, );

    open spec fn input(&self) -> Self::NodeInput {
        (self.0.input(), self.1.input(), )
    }

    fn into_input(self) -> (r: Self::NodeInput) {
        let (p0, p1, ) = self;
        (p0.into_input(), p1.into_input(), )
    }
}

impl<P0: RenderGraphNodeInput, P1: RenderGraphNodeInput, P2: RenderGraphNodeInput> RenderGraphNodeInput for (P0, P1, P2, ) {
}

impl<P0: RenderGraphNodeInputDescriptor, P1: RenderGraphNodeInputDescriptor, P2: RenderGraphNodeInputDescriptor> RenderGraphNodeInputDescriptor for (P0, P1, P2, ) {
    type NodeInput = (P0::NodeInput, P1::NodeInput, P2::NodeInput, );

    open spec fn input(&self) -> Self::NodeInput {
        (self.0.input(), self.1.input(), self.2.input(), )
    }

    fn into_input(self) -> (r: Self::NodeInput) {
        let (p0, p1, p2, ) = self;
        (p0.into_input(), p1.into_input(), p2.into_input(), )
    }
}

impl<P0: RenderGraphNodeInput, P1: RenderGraphNodeInput, P2: RenderGraphNodeInput, P3: RenderGraphNodeInput> RenderGraphNodeInput for (P0, P1, P2, P3, ) {
}

impl<P0: RenderGraphNodeInputDescriptor, P1: RenderGraphNodeInputDescriptor, P2: RenderGraphNodeInputDescriptor, P3: RenderGraphNodeInputDescriptor> RenderGraphNodeInputDescriptor for (P0, P1, P2, P3, ) {
    type NodeInput = (P0::NodeInput, P1::NodeInput, P2::NodeInput, P3::NodeInput, );

    open spec fn input(&self) -> Self::NodeInput {
        (self.0.input(), self.1.input(), self.2.input(), self.3.input(), )
    }

    fn into_input(self) -> (r: Self::NodeInput) {
        let (p0, p1, p2, p3, ) = self;
        (p0.into_input(), p1.into_input(), p2.into_input(), p3.into_input(), )
    }
}

impl<P0: RenderGraphNodeInput, P1: RenderGraphNodeInput, P2: RenderGraphNodeInput, P3: RenderGraphNodeInput, P4: RenderGraphNodeInput> RenderGraphNodeInput for (P0, P1, P2, P3, P4, ) {
}

impl<P0: RenderGraphNodeInputDescriptor, P1: RenderGraphNodeInputDescriptor, P2: RenderGraphNodeInputDescriptor, P3: RenderGraphNodeInputDescriptor, P4: RenderGraphNodeInputDescriptor> RenderGraphNodeInputDescriptor for (P0, P1, P2, P3, P4, ) {
    type NodeInput = (P0::NodeInput, P1::NodeInput, P2::NodeInput, P3::NodeInput, P4::NodeInput, );

    open spec fn input(&self) -> Self::NodeInput {
        (self.0.input(), self.1.input(), self.2.input(), self.3.input(), self.4.input(), )
    }

    fn into_input(self) -> (r: Self::NodeInput) {
        let (p0, p1, p2, p3, p4, ) = self;
        (p0.into_input(), p1.into_input(), p2.into_input(), p3.into_input(), p4.into_input(), )
    }
}

impl<P0: RenderGraphNodeInput, P1: RenderGraphNodeInput, P2: RenderGraphNodeInput, P3: RenderGraphNodeInput, P4: RenderGraphNodeInput, P5: RenderGraphNodeInput> RenderGraphNodeInput for (P0, P1, P2, P3, P4, P5, ) {
}

impl<P0: RenderGraphNodeInputDescriptor, P1: RenderGraphNodeInputDescriptor, P2: RenderGraphNodeInputDescriptor, P3: RenderGraphNodeInputDescriptor, P4: RenderGraphNodeInputDescriptor, P5: RenderGraphNodeInputDescriptor> RenderGraphNodeInputDescriptor for (P0, P1, P2, P3, P4, P5, ) {
    type NodeInput = (P0::NodeInput, P1::NodeInput, P2::NodeInput, P3::NodeInput, P4::NodeInput, P5::NodeInput, );

    open spec fn input(&self) -> Self::NodeInput {
        (self.0.input(), self.1.input(), self.2.input(), self.3.input(), self.4.input(), self.5.input(), )
    }

    fn into_input(self) -> (r: Self::NodeInput) {
        let (p0, p1, p2, p3, p4, p5, ) = self;
        (p0.into_input(), p1.into_input(), p2.into_input(), p3.into_input(), p4.into_input(), p5.into_input(), )
    }
}

impl<P0: RenderGraphNodeInput, P1: RenderGraphNodeInput, P2: RenderGraphNodeInput, P3: RenderGraphNodeInput, P4: RenderGraphNodeInput, P5: RenderGraphNodeInput, P6: RenderGraphNodeInput> RenderGraphNodeInput for (P0, P1, P2, P3, P4, P5, P6, ) {
}

impl<P0: RenderGraphNodeInputDescriptor, P1: RenderGraphNodeInputDescriptor, P2: RenderGraphNodeInputDescriptor, P3: RenderGraphNodeInputDescriptor, P4: RenderGraphNodeInputDescriptor, P5: RenderGraphNodeInputDescriptor, P6: RenderGraphNodeInputDescriptor> RenderGraphNodeInputDescriptor for (P0, P1, P2, P3, P4, P5, P6, ) {
    type NodeInput = (P0::NodeInput, P1::NodeInput, P2::NodeInput, P3::NodeInput, P4::NodeInput, P5::NodeInput, P6::NodeInput, );

    open spec fn input(&self) -> Self::NodeInput {
        (self.0.input(), self.1.input(), self.2.input(), self.3.input(), self.4.input(), self.5.input(), self.6.input(), )
    }

    fn into_input(self) -> (r: Self::NodeInput) {
        let (p0, p1, p2, p3, p4, p5, p6, ) = self;
        (p0.into_input(), p1.into_input(), p2.into_input(), p3.into_input(), p4.into_input(), p5.into_input(), p6.into_input(), )
    }
}

impl<P0: RenderGraphNodeInput, P1: RenderGraphNodeInput, P2: RenderGraphNodeInput, P3: RenderGraphNodeInput, P4: RenderGraphNodeInput, P5: RenderGraphNodeInput, P6: RenderGraphNodeInput, P7: RenderGraphNodeInput> RenderGraphNodeInput for (P0, P1, P2, P3, P4, P5, P6, P7, ) {
}

impl<P0: RenderGraphNodeInputDescriptor, P1: RenderGraphNodeInputDescriptor, P2: RenderGraphNodeInputDescriptor, P3: RenderGraphNodeInputDescriptor, P4: RenderGraphNodeInputDescriptor, P5: RenderGraphNodeInputDescriptor, P6: RenderGraphNodeInputDescriptor, P7: RenderGraphNodeInputDescriptor> RenderGraphNodeInputDescriptor for (P0, P1, P2, P3, P4, P5, P6, P7, ) {
    type NodeInput = (P0::NodeInput, P1::NodeInput, P2::NodeInput, P3::NodeInput, P4::NodeInput, P5::NodeInput, P6::NodeInput, P7::NodeInput, );

    open spec fn input(&self) -> Self::NodeInput {
        (self.0.input(), self.1.input(), self.2.input(), self.3.input(), self.4.input(), self.5.input(), self.6.input(), self.7.input(), )
    }

    fn into_input(self) -> (r: Self::NodeInput) {
        let (p0, p1, p2, p3, p4, p5, p6, p7, ) = self;
        (p0.into_input(), p1.into_input(), p2.into_input(), p3.into_input(), p4.into_input(), p5.into_input(), p6.into_input(), p7.into_input(), )
    }
}

} // verus!
