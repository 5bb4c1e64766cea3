use vstd::prelude::*;

verus! {

/// Time between two animation ticks, in nanoseconds (66 ms).
pub const FRAME_INTERVAL_NANOS: u64 = 66_000_000;

/// What one repaint of the running animation does.
#[derive(Debug, Clone, Copy, PartialEq, Eq, Structural)]
pub enum FrameAction {
    /// The animation is paused: nothing to do.
    Idle,
    /// Too early for the next tick: repaint again after this many
    /// nanoseconds.
    Wait(u64),
    /// Queue `steps` GPU Lenia steps, step the CPU reference once when
    /// `cpu_step`, and set the step count to `step_count`.
    GpuSteps { steps: u64, cpu_step: bool, step_count: u64 },
    /// Run this many CPU steps, each adding one to the step count.
    CpuSteps(u64),
}

/// Decides one repaint: paused, wait for the rest of the frame interval, or
/// take the frame's steps on the GPU (keeping the CPU reference one step
/// behind every fourth step count) or on the CPU.
pub fn frame_tick(
    running: bool,
    elapsed_nanos: u64,
    gpu_active: bool,
    step_count: u64,
    steps_per_frame: u64,
) -> (a: FrameAction)
    requires
        running && elapsed_nanos >= FRAME_INTERVAL_NANOS && gpu_active ==> step_count
            + steps_per_frame <= u64::MAX,
    ensures
        !running ==> a == FrameAction::Idle,
        running && elapsed_nanos < FRAME_INTERVAL_NANOS ==> a == FrameAction::Wait(
            (FRAME_INTERVAL_NANOS - elapsed_nanos) as u64,
        ),
        running && elapsed_nanos >= FRAME_INTERVAL_NANOS && gpu_active ==> a
            == (FrameAction::GpuSteps {
            steps: steps_per_frame,
            cpu_step: step_count % 4 == 0,
            step_count: (step_count + steps_per_frame) as u64,
        }),
        running && elapsed_nanos >= FRAME_INTERVAL_NANOS && !gpu_active ==> a
            == FrameAction::CpuSteps(steps_per_frame),
{
    if !running {
        FrameAction::Idle
    } else if elapsed_nanos < FRAME_INTERVAL_NANOS {
        FrameAction::Wait(FRAME_INTERVAL_NANOS - elapsed_nanos)
    } else if gpu_active {
        FrameAction::GpuSteps {
            steps: steps_per_frame,
            cpu_step: step_count % 4 == 0,
            step_count: step_count + steps_per_frame,
        }
    } else {
        FrameAction::CpuSteps(steps_per_frame)
    }
}

} // verus!
