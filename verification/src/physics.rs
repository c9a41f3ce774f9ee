//! Physics classification enums and spring presets shared by the layout and
//! physics layers.

use vstd::prelude::*;

verus! {

/// Observable state of a physics body.
#[derive(Debug, Clone, Copy, PartialEq, Eq, Structural)]
pub enum PhysicsState {
    /// Body is being stepped; forces are being applied.
    Active,
    /// Within the settle threshold; decelerating toward its target.
    Settling,
    /// At target. Wakes on input or layout change.
    Asleep,
}

/// The interaction class of a component.
#[derive(Debug, Clone, Copy, PartialEq, Eq, Structural)]
pub enum InteractionClass {
    /// Spring-driven, pixel-perfect, predictable.
    KinematicSpring,
    /// Impulse-driven, gravity-aware.
    DynamicImpulse,
}

/// How a body takes part in the simulation.
#[derive(Debug, Clone, Copy, PartialEq, Eq, Structural)]
pub enum BodyType {
    /// Driven by springs toward layout targets; cannot be pushed by other bodies.
    Kinematic,
    /// Fully simulated: gravity, impulses and collisions.
    Dynamic,
    /// No physics body; rendered at its layout position only.
    Static,
}

/// Stiffness presets, each mapping to pre-tuned spring coefficients.
#[derive(Debug, Clone, Copy, PartialEq, Eq, Structural)]
pub enum Stiffness {
    Rigid,
    High,
    Medium,
    Low,
    Fluid,
}

impl Stiffness {
    /// The pre-tuned spring coefficients of the preset, as
    /// `(stiffness, damping)`; every preset's values are whole numbers.
    pub fn coefficients(&self) -> (c: (u32, u32))
        ensures
            c == match *self {
                Stiffness::Rigid => (800u32, 40u32),
                Stiffness::High => (400u32, 28u32),
                Stiffness::Medium => (150u32, 15u32),
                Stiffness::Low => (60u32, 9u32),
                Stiffness::Fluid => (20u32, 5u32),
            },
    {
        match self {
            Stiffness::Rigid => (800, 40),
            Stiffness::High => (400, 28),
            Stiffness::Medium => (150, 15),
            Stiffness::Low => (60, 9),
            Stiffness::Fluid => (20, 5),
        }
    }
}

} // verus!
