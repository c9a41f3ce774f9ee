//! Layout style enums (Flexbox / Grid / Block), owned by the core crate so
//! that no subsystem needs the layout engine's own types.

use vstd::prelude::*;

verus! {

#[derive(Debug, Clone, Copy, PartialEq, Eq, Structural)]
pub enum Display {
    Flex,
    Grid,
    Block,
    /// The node takes no space and is not laid out (`display: none`).
    Hidden,
}

#[derive(Debug, Clone, Copy, PartialEq, Eq, Structural)]
pub enum FlexDirection {
    Row,
    Column,
    RowReverse,
    ColumnReverse,
}

#[derive(Debug, Clone, Copy, PartialEq, Eq, Structural)]
pub enum AlignItems {
    Stretch,
    Center,
    FlexStart,
    FlexEnd,
    Baseline,
}

#[derive(Debug, Clone, Copy, PartialEq, Eq, Structural)]
pub enum JustifyContent {
    FlexStart,
    Center,
    FlexEnd,
    SpaceBetween,
    SpaceAround,
    SpaceEvenly,
}

impl Default for Display {
    fn default() -> (d: Display)
        ensures
            d == Display::Flex,
    {
        Display::Flex
    }
}

impl Default for FlexDirection {
    fn default() -> (d: FlexDirection)
        ensures
            d == FlexDirection::Row,
    {
        FlexDirection::Row
    }
}

impl Default for AlignItems {
    fn default() -> (a: AlignItems)
        ensures
            a == AlignItems::Stretch,
    {
        AlignItems::Stretch
    }
}

impl Default for JustifyContent {
    fn default() -> (j: JustifyContent)
        ensures
            j == JustifyContent::FlexStart,
    {
        JustifyContent::FlexStart
    }
}

} // verus!
