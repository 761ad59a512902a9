//! Making the resources of the blur, one device object after the other.
use crate::device::{
    linear_sampler, params_buffer, params_buffer_desc, sampler_desc, BufferDesc, SamplerDesc,
    ShaderModule, ShaderTarget,
};
use crate::resources::{Backend, BackdropResources, Scratch, Shaders};
use vstd::prelude::*;

verus! {

/// A device object to make.
#[derive(Clone, Copy, Debug, PartialEq, Eq)]
pub enum Creation {
    /// One stage of a shader program.
    Shader { module: ShaderModule, target: ShaderTarget },
    /// The parameter buffer.
    Params(BufferDesc),
    /// The sampler.
    Sampler(SamplerDesc),
}

/// A device object that was made.
pub enum Created<G: Backend> {
    Vertex(G::VertexShader),
    Fragment(G::PixelShader),
    Params(G::Buffer),
    Sampler(G::Sampler),
}

/// How far the making of the resources has come. The first failure ends the making and drops what
/// was made.
pub enum ResourceSetup<G: Backend> {
    PassVertex,
    PassFragment { vertex: G::VertexShader },
    CompositeVertex { pass: Shaders<G> },
    CompositeFragment { pass: Shaders<G>, vertex: G::VertexShader },
    Params { pass: Shaders<G>, composite: Shaders<G> },
    Sampler { pass: Shaders<G>, composite: Shaders<G>, params: G::Buffer },
    Done { resources: BackdropResources<G> },
    Failed,
}

impl<G: Backend> ResourceSetup<G> {
    /// The object that is due; none at the end.
    pub open spec fn due(self) -> Option<Creation> {
        match self {
            ResourceSetup::PassVertex => Some(
                Creation::Shader {
                    module: ShaderModule::BackdropPass,
                    target: ShaderTarget::Vertex,
                },
            ),
            ResourceSetup::PassFragment { .. } => Some(
                Creation::Shader {
                    module: ShaderModule::BackdropPass,
                    target: ShaderTarget::Fragment,
                },
            ),
            ResourceSetup::CompositeVertex { .. } => Some(
                Creation::Shader {
                    module: ShaderModule::BackdropComposite,
                    target: ShaderTarget::Vertex,
                },
            ),
            ResourceSetup::CompositeFragment { .. } => Some(
                Creation::Shader {
                    module: ShaderModule::BackdropComposite,
                    target: ShaderTarget::Fragment,
                },
            ),
            ResourceSetup::Params { .. } => Some(Creation::Params(params_buffer())),
            ResourceSetup::Sampler { .. } => Some(Creation::Sampler(linear_sampler())),
            ResourceSetup::Done { .. } => None,
            ResourceSetup::Failed => None,
        }
    }

    /// What becomes of the making when an object was made, or could not be: the due one is taken,
    /// another one is not, and a failure ends it.
    pub open spec fn with(self, created: Option<Created<G>>) -> ResourceSetup<G> {
        match (self, created) {
            (ResourceSetup::Done { resources }, _) => ResourceSetup::Done { resources },
            (_, None) => ResourceSetup::Failed,
            (ResourceSetup::PassVertex, Some(Created::Vertex(vertex))) => {
                ResourceSetup::PassFragment { vertex }
            },
            (ResourceSetup::PassFragment { vertex }, Some(Created::Fragment(fragment))) => {
                ResourceSetup::CompositeVertex { pass: Shaders { vertex, fragment } }
            },
            (ResourceSetup::CompositeVertex { pass }, Some(Created::Vertex(vertex))) => {
                ResourceSetup::CompositeFragment { pass, vertex }
            },
            (
                ResourceSetup::CompositeFragment { pass, vertex },
                Some(Created::Fragment(fragment)),
            ) => ResourceSetup::Params { pass, composite: Shaders { vertex, fragment } },
            (ResourceSetup::Params { pass, composite }, Some(Created::Params(params))) => {
                ResourceSetup::Sampler { pass, composite, params }
            },
            (
                ResourceSetup::Sampler { pass, composite, params },
                Some(Created::Sampler(sampler)),
            ) => ResourceSetup::Done {
                resources: BackdropResources {
                    pass,
                    composite,
                    params,
                    sampler,
                    scratch: None::<Scratch<G>>,
                    idle_frames: 0,
                },
            },
            (setup, _) => setup,
        }
    }

    /// Starts with nothing made.
    pub fn start() -> (setup: Self)
        ensures
            setup == ResourceSetup::<G>::PassVertex,
    {
        ResourceSetup::PassVertex
    }

    /// The object that is due.
    pub fn request(&self) -> (creation: Option<Creation>)
        ensures
            creation == self.due(),
    {
        match self {
            ResourceSetup::PassVertex => Some(
                Creation::Shader {
                    module: ShaderModule::BackdropPass,
                    target: ShaderTarget::Vertex,
                },
            ),
            ResourceSetup::PassFragment { .. } => Some(
                Creation::Shader {
                    module: ShaderModule::BackdropPass,
                    target: ShaderTarget::Fragment,
                },
            ),
            ResourceSetup::CompositeVertex { .. } => Some(
                Creation::Shader {
                    module: ShaderModule::BackdropComposite,
                    target: ShaderTarget::Vertex,
                },
            ),
            ResourceSetup::CompositeFragment { .. } => Some(
                Creation::Shader {
                    module: ShaderModule::BackdropComposite,
                    target: ShaderTarget::Fragment,
                },
            ),
            ResourceSetup::Params { .. } => Some(Creation::Params(params_buffer_desc())),
            ResourceSetup::Sampler { .. } => Some(Creation::Sampler(sampler_desc())),
            ResourceSetup::Done { .. } => None,
            ResourceSetup::Failed => None,
        }
    }

    /// Takes an object that was made, or the news that it could not be.
    pub fn supply(self, created: Option<Created<G>>) -> (setup: Self)
        ensures
            setup == self.with(created),
    {
        match (self, created) {
            (ResourceSetup::Done { resources }, _) => ResourceSetup::Done { resources },
            (_, None) => ResourceSetup::Failed,
            (ResourceSetup::PassVertex, Some(Created::Vertex(vertex))) => {
                ResourceSetup::PassFragment { vertex }
            },
            (ResourceSetup::PassFragment { vertex }, Some(Created::Fragment(fragment))) => {
                ResourceSetup::CompositeVertex { pass: Shaders::new(vertex, fragment) }
            },
            (ResourceSetup::CompositeVertex { pass }, Some(Created::Vertex(vertex))) => {
                ResourceSetup::CompositeFragment { pass, vertex }
            },
            (
                ResourceSetup::CompositeFragment { pass, vertex },
                Some(Created::Fragment(fragment)),
            ) => ResourceSetup::Params { pass, composite: Shaders::new(vertex, fragment) },
            (ResourceSetup::Params { pass, composite }, Some(Created::Params(params))) => {
                ResourceSetup::Sampler { pass, composite, params }
            },
            (
                ResourceSetup::Sampler { pass, composite, params },
                Some(Created::Sampler(sampler)),
            ) => ResourceSetup::Done {
                resources: BackdropResources::new(pass, composite, params, sampler),
            },
            (setup, _) => setup,
        }
    }

    /// The resources, once they are complete.
    pub fn finish(self) -> (resources: Option<BackdropResources<G>>)
        ensures
            resources == match self {
                ResourceSetup::Done { resources } => Some(resources),
                _ => None,
            },
    {
        match self {
            ResourceSetup::Done { resources } => Some(resources),
            _ => None,
        }
    }
}

/// Objects that are made as they fall due end up where they belong: first the stages of the pass
/// program, then those of the composite one, then the buffer and the sampler. The resources are
/// without surfaces and in use.
pub proof fn law_setup_completes<G: Backend>(
    pass_vertex: G::VertexShader,
    pass_fragment: G::PixelShader,
    composite_vertex: G::VertexShader,
    composite_fragment: G::PixelShader,
    params: G::Buffer,
    sampler: G::Sampler,
)
    ensures
        ({
            let pass = ShaderModule::BackdropPass;
            let composite = ShaderModule::BackdropComposite;
            let vertex = ShaderTarget::Vertex;
            let fragment = ShaderTarget::Fragment;
            let s0 = ResourceSetup::<G>::PassVertex;
            let s1 = s0.with(Some(Created::Vertex(pass_vertex)));
            let s2 = s1.with(Some(Created::Fragment(pass_fragment)));
            let s3 = s2.with(Some(Created::Vertex(composite_vertex)));
            let s4 = s3.with(Some(Created::Fragment(composite_fragment)));
            let s5 = s4.with(Some(Created::Params(params)));
            let s6 = s5.with(Some(Created::Sampler(sampler)));
            &&& s0.due() == Some(Creation::Shader { module: pass, target: vertex })
            &&& s1.due() == Some(Creation::Shader { module: pass, target: fragment })
            &&& s2.due() == Some(Creation::Shader { module: composite, target: vertex })
            &&& s3.due() == Some(Creation::Shader { module: composite, target: fragment })
            &&& s4.due() == Some(Creation::Params(params_buffer()))
            &&& s5.due() == Some(Creation::Sampler(linear_sampler()))
            &&& s6 == (ResourceSetup::<G>::Done {
                resources: BackdropResources {
                    pass: Shaders { vertex: pass_vertex, fragment: pass_fragment },
                    composite: Shaders { vertex: composite_vertex, fragment: composite_fragment },
                    params,
                    sampler,
                    scratch: None::<Scratch<G>>,
                    idle_frames: 0,
                },
            })
        }),
{
}

/// The first object that cannot be made ends the making: nothing more falls due, and nothing that
/// comes later completes it. Until then something is due.
pub proof fn law_failure_leaves_no_resources<G: Backend>(
    setup: ResourceSetup<G>,
    later: Option<Created<G>>,
)
    requires
        !(setup is Done),
    ensures
        setup.with(None) is Failed,
        setup.with(None).due() is None,
        setup.with(None).with(later) is Failed,
        setup.due() is None <==> setup is Failed,
{
}

/// Only the object that is due is taken: another one leaves the making as it was, and nothing
/// changes resources that are complete.
pub proof fn law_only_due_resource_is_taken<G: Backend>(
    setup: ResourceSetup<G>,
    created: Created<G>,
)
    ensures
        ({
            let fits = match setup.due() {
                Some(Creation::Shader { target, .. }) => match target {
                    ShaderTarget::Vertex => created is Vertex,
                    ShaderTarget::Fragment => created is Fragment,
                },
                Some(Creation::Params(_)) => created is Params,
                Some(Creation::Sampler(_)) => created is Sampler,
                None => false,
            };
            &&& !fits ==> setup.with(Some(created)) == setup
            &&& fits ==> setup.with(Some(created)).due() != setup.due()
            &&& setup is Done ==> setup.with(None) == setup
        }),
{
}

} // verus!
