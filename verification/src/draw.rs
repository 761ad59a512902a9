//! Drawing a blur: what comes first, which step follows which, and how it ends.
use crate::commands::{
    constant_words, copy_box_of, draw_program, program_of, restore_ops, words_of, Command, CopyBox,
    Op, Params,
};
use crate::geometry::BackdropBlur;
use crate::kernel::{gaussian_weights, reach_of, weight_table, TABLE_RADIUS};
use crate::plan::{law_capture_covers_kernel, plan_backdrop_blur, plan_of, BlurPlan};
use crate::resources::{
    fits, law_scratch_fits_drawable, law_stable_blur_reuses_scratch, request_of, settled,
    ScratchLayout,
};
use crate::single::F32;
use vstd::prelude::*;

verus! {

/// What a blur reads of the renderer that draws it.
#[derive(Clone, Copy, Debug, PartialEq, Eq)]
pub struct DirectXRenderer {
    /// The width of the drawable in device pixels.
    pub width: u32,
    /// The height of the drawable in device pixels.
    pub height: u32,
    /// Whether there is a device.
    pub has_devices: bool,
    /// Whether the window's own resources are there.
    pub has_resources: bool,
    /// Whether the resources of the blur are there.
    pub has_backdrop: bool,
}

/// How the drawing of a blur starts.
#[derive(Clone, Copy, Debug, PartialEq, Eq)]
pub enum FirstStep {
    /// Nothing is to be drawn, and nothing is made or changed.
    Skip,
    /// There is no device.
    DevicesMissing,
    /// The window has no resources.
    ResourcesMissing,
    /// The resources of the blur have to be made before its scratch surfaces are asked for.
    CreateResources(BlurPlan),
    /// The scratch surfaces can be asked for.
    Draw(BlurPlan),
}

/// Why the drawing of a blur ended early.
#[derive(Clone, Copy, Debug, PartialEq, Eq)]
pub enum Failure {
    /// There is no main target to copy from. The context is left as it was prepared.
    TargetMissing,
    /// The parameters of a pass could not be uploaded. The context has been restored.
    UploadFailed,
}

/// How the drawing of a blur starts in the given renderer.
pub open spec fn first_step_of(renderer: DirectXRenderer, blur: BackdropBlur) -> FirstStep {
    match plan_of(blur, renderer.width, renderer.height) {
        None => FirstStep::Skip,
        Some(plan) => if !renderer.has_devices {
            FirstStep::DevicesMissing
        } else if !renderer.has_resources {
            FirstStep::ResourcesMissing
        } else if !renderer.has_backdrop {
            FirstStep::CreateResources(plan)
        } else {
            FirstStep::Draw(plan)
        },
    }
}

impl DirectXRenderer {
    /// Decides how the drawing of a blur starts.
    pub fn draw_backdrop_blur(&self, blur: &BackdropBlur) -> (step: FirstStep)
        ensures
            step == first_step_of(*self, *blur),
            step matches FirstStep::CreateResources(plan) ==> plan.left < plan.right && plan.top
                < plan.bottom,
            step matches FirstStep::Draw(plan) ==> plan.left < plan.right && plan.top
                < plan.bottom,
    {
        match plan_backdrop_blur(blur, self.width, self.height) {
            None => FirstStep::Skip,
            Some(plan) => {
                if !self.has_devices {
                    FirstStep::DevicesMissing
                } else if !self.has_resources {
                    FirstStep::ResourcesMissing
                } else if !self.has_backdrop {
                    FirstStep::CreateResources(plan)
                } else {
                    FirstStep::Draw(plan)
                }
            },
        }
    }
}

/// The steps that are left of a blur, and what went wrong so far.
pub struct BackdropDraw {
    ops: Vec<Op>,
    weights: Vec<F32>,
    at: usize,
    failure: Option<Failure>,
}

/// The step after `at`: the next one, or, where a step failed, the restoring ones, or none where
/// the capture failed.
pub open spec fn next_step(ops: Seq<Op>, at: int, ok: bool) -> int {
    if ok {
        at + 1
    } else if ops[at] is Capture {
        ops.len() as int
    } else {
        ops.len() - restore_ops().len()
    }
}

/// What a step that failed says about the blur.
pub open spec fn failure_of(op: Op) -> Failure {
    if op is Capture {
        Failure::TargetMissing
    } else {
        Failure::UploadFailed
    }
}

impl BackdropDraw {
    /// All steps of the blur.
    pub closed spec fn steps(&self) -> Seq<Op> {
        self.ops@
    }

    /// The weight table of the blur.
    pub closed spec fn table(&self) -> Seq<F32> {
        self.weights@
    }

    /// The step that is due.
    pub closed spec fn position(&self) -> int {
        self.at as int
    }

    /// What went wrong so far.
    pub closed spec fn failed(&self) -> Option<Failure> {
        self.failure
    }

    /// The due step is one of the steps or past them, and the last steps, those that restore the
    /// context, cannot fail.
    pub open spec fn wf(&self) -> bool {
        &&& 0 <= self.position() <= self.steps().len()
        &&& restore_ops().len() <= self.steps().len()
        &&& forall|i: int|
            self.steps().len() - restore_ops().len() <= i < self.steps().len()
                ==> #[trigger] self.steps()[i] is Context
    }

    /// Starts the drawing of a planned blur with scratch surfaces of the given layout. `taps`
    /// holds the exponentials of the kernel's exponents.
    pub fn new(
        blur: &BackdropBlur,
        plan: &BlurPlan,
        layout: &ScratchLayout,
        window: [u32; 2],
        taps: &Vec<F32>,
    ) -> (draw: Self)
        requires
            layout.downsample > 0,
            layout.width <= window[0],
            layout.height <= window[1],
            reach_of(plan.sigma) <= TABLE_RADIUS ==> taps@.len() == reach_of(plan.sigma) + 1,
        ensures
            draw.wf(),
            draw.steps() == program_of(*blur, *plan, *layout, window@),
            draw.table() == weight_table(plan.sigma, taps@),
            draw.position() == 0,
            draw.failed() is None,
    {
        BackdropDraw {
            ops: draw_program(blur, plan, layout, window),
            weights: gaussian_weights(plan.sigma, taps),
            at: 0,
            failure: None,
        }
    }

    /// The step that is due; none at the end.
    pub fn current(&self) -> (op: Option<Op>)
        requires
            self.wf(),
        ensures
            op == if self.position() < self.steps().len() {
                Some(self.steps()[self.position()])
            } else {
                None
            },
    {
        if self.at < self.ops.len() {
            Some(self.ops[self.at])
        } else {
            None
        }
    }

    /// The words that an upload writes.
    pub fn constants(&self, params: &Params) -> (words: Vec<u32>)
        ensures
            words@ == words_of(*params, self.table()),
    {
        constant_words(params, &self.weights)
    }

    /// Takes the outcome of the due step and moves on.
    pub fn report(&mut self, ok: bool)
        requires
            old(self).wf(),
            old(self).position() < old(self).steps().len(),
            !ok ==> old(self).steps()[old(self).position()].fallible(),
        ensures
            final(self).wf(),
            final(self).steps() == old(self).steps(),
            final(self).table() == old(self).table(),
            final(self).position() == next_step(old(self).steps(), old(self).position(), ok),
            final(self).failed() == if ok {
                old(self).failed()
            } else {
                Some(failure_of(old(self).steps()[old(self).position()]))
            },
            final(self).position() > old(self).position(),
    {
        let count: usize = self.ops.len();
        if ok {
            self.at = self.at + 1;
        } else {
            match self.ops[self.at] {
                Op::Capture(_) => {
                    self.failure = Some(Failure::TargetMissing);
                    self.at = count;
                },
                _ => {
                    self.failure = Some(Failure::UploadFailed);
                    self.at = count - 8;
                },
            }
        }
    }

    /// Goes through the rest of the blur without a device: the steps that are performed when each
    /// one that can fail has the given outcome.
    pub fn rehearse(self, outcomes: &Vec<bool>) -> (run: Vec<Op>)
        requires
            self.wf(),
        ensures
            run@ == performed(self.steps(), self.position(), script_of(outcomes@)),
    {
        let ghost script = script_of(outcomes@);
        let ghost whole = performed(self.steps(), self.position(), script);
        let mut draw = self;
        let mut run: Vec<Op> = Vec::new();
        let ghost steps = self.steps();
        let mut due = draw.current();
        while due.is_some()
            invariant
                draw.wf(),
                draw.steps() == steps,
                script == script_of(outcomes@),
                due == if draw.position() < steps.len() {
                    Some(steps[draw.position()])
                } else {
                    None
                },
                whole == run@ + performed(steps, draw.position(), script),
            decreases steps.len() - draw.position(),
        {
            let op = due.unwrap();
            let ghost at = draw.position();
            let at_step: usize = draw.at;
            let ok = match op {
                Op::Context(_) => true,
                _ => at_step < outcomes.len() && outcomes[at_step],
            };
            run.push(op);
            draw.report(ok);
            due = draw.current();
            proof {
                assert(ok == (script(at) || !steps[at].fallible()));
                assert(whole =~= run@ + performed(steps, draw.position(), script));
            }
        }
        proof {
            assert(performed(steps, draw.position(), script) =~= Seq::<Op>::empty());
            assert(whole =~= run@);
        }
        run
    }

    /// What went wrong so far, if anything.
    pub fn failure(&self) -> (r: Option<Failure>)
        ensures
            r == self.failed(),
    {
        self.failure
    }
}

/// Which steps succeed, one outcome for each; those without one do not.
pub open spec fn script_of(outcomes: Seq<bool>) -> spec_fn(int) -> bool {
    |i: int| 0 <= i < outcomes.len() && outcomes[i]
}

/// The steps that are performed from `at` on, when step `i` succeeds just where `script(i)` says
/// so or where it cannot fail.
pub open spec fn performed(ops: Seq<Op>, at: int, script: spec_fn(int) -> bool) -> Seq<Op>
    decreases ops.len() - at,
{
    if at < 0 || at >= ops.len() {
        Seq::empty()
    } else {
        let next = next_step(ops, at, script(at) || !ops[at].fallible());
        if next <= at {
            seq![ops[at]]
        } else {
            seq![ops[at]] + performed(ops, next, script)
        }
    }
}

/// How the drawing of a blur starts: not at all where there is no plan, whatever else is missing;
/// then the devices are missed before the window's resources, and those before the blur's own; and
/// the plan is handed on.
pub proof fn law_first_step(renderer: DirectXRenderer, blur: BackdropBlur)
    ensures
        ({
            let step = first_step_of(renderer, blur);
            let plan = plan_of(blur, renderer.width, renderer.height);
            &&& step is Skip <==> plan is None
            &&& plan is Some && !renderer.has_devices <==> step is DevicesMissing
            &&& plan is Some && renderer.has_devices && !renderer.has_resources
                <==> step is ResourcesMissing
            &&& plan is Some && renderer.has_devices && renderer.has_resources
                && !renderer.has_backdrop <==> step is CreateResources
            &&& plan is Some && renderer.has_devices && renderer.has_resources
                && renderer.has_backdrop <==> step is Draw
            &&& step matches FirstStep::CreateResources(made) ==> Some(made) == plan
            &&& step matches FirstStep::Draw(drawn) ==> Some(drawn) == plan
        }),
{
}

/// A capture that fails lacked its target, and an upload that fails is reported as such.
pub proof fn law_failures_are_told_apart(region: CopyBox, params: Params, command: Command)
    ensures
        failure_of(Op::Capture(region)) == Failure::TargetMissing,
        failure_of(Op::Upload(params)) == Failure::UploadFailed,
        Op::Capture(region).fallible(),
        Op::Upload(params).fallible(),
        !Op::Context(command).fallible(),
{
}

/// Whatever pixels a blur reads exist and are copied. With surfaces that fit the window or none,
/// the surfaces that a drawn blur settles on fit it too and shrink by the planned step, and the
/// box that is copied lies inside the window. In a window of up to `2^24` pixels a side, far more
/// than a device allows, the box holds every pixel of the plan.
pub proof fn law_blur_reads_real_pixels(
    blur: BackdropBlur,
    previous: Option<ScratchLayout>,
    window: Seq<u32>,
)
    requires
        plan_of(blur, window[0], window[1]) is Some,
        fits(previous, window),
    ensures
        ({
            let plan = plan_of(blur, window[0], window[1])->0;
            let width = (plan.right - plan.left) as u32;
            let height = (plan.bottom - plan.top) as u32;
            let met = settled(
                previous,
                request_of(previous, width, height, plan.downsample, window),
            );
            let region = copy_box_of(plan, met->0, window);
            &&& met is Some
            &&& fits(met, window)
            &&& met->0.downsample == plan.downsample
            &&& 1 <= plan.downsample <= 4
            &&& region.right - region.left == met->0.width
            &&& region.bottom - region.top == met->0.height
            &&& region.right <= window[0]
            &&& region.bottom <= window[1]
            &&& window[0] <= 0x100_0000 && window[1] <= 0x100_0000 ==> {
                &&& region.left <= plan.left < plan.right <= region.right
                &&& region.top <= plan.top < plan.bottom <= region.bottom
            }
        }),
{
    let plan = plan_of(blur, window[0], window[1])->0;
    let width = (plan.right - plan.left) as u32;
    let height = (plan.bottom - plan.top) as u32;
    law_scratch_fits_drawable(previous, width, height, plan.downsample, window);
    if window[0] <= 0x100_0000 && window[1] <= 0x100_0000 {
        law_capture_covers_kernel(blur, window[0], window[1]);
        law_stable_blur_reuses_scratch(
            previous,
            width,
            height,
            plan.downsample,
            window,
            width,
            height,
            window,
        );
    }
}

} // verus!
