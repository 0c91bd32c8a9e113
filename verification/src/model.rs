//! Plain-value model of a parsed diagram, as the layout core reads it.
use vstd::prelude::*;

verus! {

/// Layout flow direction of a diagram.
#[derive(Debug, Clone, Copy, PartialEq, Eq, Structural, Hash)]
pub enum Direction {
    TB,
    BT,
    LR,
    RL,
}

/// Kind of diagram being laid out.
#[derive(Debug, Clone, Copy, PartialEq, Eq, Structural, Hash)]
pub enum DiagramType {
    Flowchart,
    ClassDiagram,
    ErDiagram,
    C4Diagram,
}

/// Shape of a node.
#[derive(Debug, Clone, Copy, PartialEq, Eq, Structural, Hash)]
pub enum NodeShape {
    Rectangle,
    RoundedRectangle,
    Diamond,
    Circle,
    Hexagon,
    Stadium,
    Subroutine,
    Asymmetric,
    Parallelogram,
    ParallelogramAlt,
    Trapezoid,
    TrapezoidAlt,
    DoubleCircle,
    Cylinder,
    ClassBox,
    ErBox,
    C4Box,
}

/// Line style of an edge.
#[derive(Debug, Clone, Copy, PartialEq, Eq, Structural, Hash)]
pub enum EdgeStyle {
    Solid,
    Dotted,
    Thick,
}

/// Head drawn at the target end of an edge.
#[derive(Debug, Clone, Copy, PartialEq, Eq, Structural, Hash)]
pub enum ArrowHead {
    Arrow,
    Plain,
}

/// Kind of relation between two classes.
#[derive(Debug, Clone, Copy, PartialEq, Eq, Structural, Hash)]
pub enum ClassEdgeType {
    Inheritance,
    Realization,
    Composition,
    Aggregation,
    Association,
    Dependency,
    Link,
}

/// Visibility of a class member.
#[derive(Debug, Clone, Copy, PartialEq, Eq, Structural, Hash)]
pub enum ClassVisibility {
    Public,
    Private,
    Protected,
    Package,
}

/// Key marker of an entity attribute.
#[derive(Debug, Clone, Copy, PartialEq, Eq, Structural, Hash)]
pub enum KeyType {
    PK,
    FK,
    UK,
}

/// Element kind of a C4 diagram node.
#[derive(Debug, Clone, Copy, PartialEq, Eq, Structural, Hash)]
pub enum C4NodeType {
    Person,
    PersonExt,
    System,
    SystemExt,
    SystemDb,
    SystemDbExt,
    SystemQueue,
    SystemQueueExt,
    Container,
    ContainerExt,
    ContainerDb,
    ContainerDbExt,
    ContainerQueue,
    ContainerQueueExt,
    Component,
    ComponentExt,
    ComponentDb,
    ComponentDbExt,
    ComponentQueue,
    ComponentQueueExt,
    EnterpriseBoundary,
    SystemBoundary,
    ContainerBoundary,
    DeploymentNode,
}

} // verus!
