//! The parsed HDL module that synthesis consumes: ports, wires and gate
//! instances with their port connections.
use vstd::prelude::*;

use crate::geom::{GateKind, SourceSpan};

verus! {

/// An identifier with its source span.
#[derive(Debug, Clone)]
pub struct Ident {
    /// Identifier text.
    pub text: String,
    /// Where the identifier appears.
    pub span: SourceSpan,
}

impl Ident {
    /// Build an identifier.
    pub fn new(text: &str, span: SourceSpan) -> (r: Ident)
        ensures
            r.text@ == text@,
            r.span == span,
    {
        Ident { text: String::from_str(text), span }
    }

    /// The identifier text.
    pub fn as_str(&self) -> (s: &str)
        ensures
            s@ == self.text@,
    {
        self.text.as_str()
    }

    /// A copy of this identifier.
    pub fn duplicate(&self) -> (r: Ident)
        ensures
            r.text@ == self.text@,
            r.span == self.span,
    {
        Ident { text: self.text.clone(), span: self.span }
    }
}

/// Direction of a module port.
#[derive(Debug, Clone, Copy, PartialEq, Eq, Structural)]
pub enum PortDir {
    /// Module input.
    Input,
    /// Module output.
    Output,
}

/// Whether a signal carries a boolean or an analog (0..15) level.
#[derive(Debug, Clone, Copy, PartialEq, Eq, Structural)]
pub enum SignalKind {
    /// On/off signal.
    Boolean,
    /// Analog signal strength.
    Analog,
}

/// Comparator mode attribute.
#[derive(Debug, Clone, Copy, PartialEq, Eq, Structural)]
pub enum CompareMode {
    /// Pass the rear input when it is at least the side input.
    Compare,
    /// Output rear minus side.
    Subtract,
}

/// A module port declaration.
#[derive(Debug, Clone)]
pub struct PortDecl {
    /// Port name.
    pub name: Ident,
    /// Input or output.
    pub dir: PortDir,
    /// Boolean or analog.
    pub kind: SignalKind,
    /// Declaration span.
    pub span: SourceSpan,
}

/// An internal wire declaration.
#[derive(Debug, Clone)]
pub struct WireDecl {
    /// Wire name.
    pub name: Ident,
    /// Boolean or analog.
    pub kind: SignalKind,
    /// Declaration span.
    pub span: SourceSpan,
}

/// One `.PORT(net)` connection of a gate instance.
#[derive(Debug, Clone)]
pub struct Connection {
    /// Port name on the instance.
    pub port: Ident,
    /// Net the port is wired to.
    pub net: Ident,
    /// Connection span.
    pub span: SourceSpan,
}

/// A gate instance.
#[derive(Debug, Clone)]
pub struct GateInst {
    /// Instance name.
    pub inst_name: Ident,
    /// Primitive kind.
    pub kind: GateKind,
    /// Port connections in source order.
    pub connections: Vec<Connection>,
    /// Clock of the enclosing `always @(posedge clk)` block, if any.
    pub clock: Option<Ident>,
    /// `.MODE(..)` of a comparator.
    pub compare_mode: Option<CompareMode>,
    /// `.DELAY(..)` of a repeater.
    pub repeater_delay: Option<u8>,
    /// Instance span.
    pub span: SourceSpan,
}

/// A parsed module.
#[derive(Debug, Clone)]
pub struct Module {
    /// Module name.
    pub name: Ident,
    /// Ports in declaration order.
    pub ports: Vec<PortDecl>,
    /// Wires in declaration order.
    pub wires: Vec<WireDecl>,
    /// Gate instances in declaration order.
    pub instances: Vec<GateInst>,
    /// Module span.
    pub span: SourceSpan,
}

/// An identifier as a value: text and span.
pub type IdentView = (Seq<char>, SourceSpan);

/// A connection as a value.
pub struct ConnView {
    /// Port identifier.
    pub port: IdentView,
    /// Net identifier.
    pub net: IdentView,
    /// Connection span.
    pub span: SourceSpan,
}

/// A gate instance as a value.
pub struct GateView {
    /// Instance name.
    pub inst_name: IdentView,
    /// Primitive kind.
    pub kind: GateKind,
    /// Connections in order.
    pub connections: Seq<ConnView>,
    /// Clock, if any.
    pub clock: Option<IdentView>,
    /// Comparator mode.
    pub compare_mode: Option<CompareMode>,
    /// Repeater delay.
    pub repeater_delay: Option<u8>,
    /// Instance span.
    pub span: SourceSpan,
}

/// A wire declaration as a value.
pub struct WireView {
    /// Wire name.
    pub name: IdentView,
    /// Boolean or analog.
    pub kind: SignalKind,
    /// Declaration span.
    pub span: SourceSpan,
}

impl View for Ident {
    type V = IdentView;

    open spec fn view(&self) -> IdentView {
        (self.text@, self.span)
    }
}

impl View for Connection {
    type V = ConnView;

    open spec fn view(&self) -> ConnView {
        ConnView { port: self.port@, net: self.net@, span: self.span }
    }
}

impl View for GateInst {
    type V = GateView;

    open spec fn view(&self) -> GateView {
        GateView {
            inst_name: self.inst_name@,
            kind: self.kind,
            connections: self.connections@.map_values(|c: Connection| c@),
            clock: match self.clock {
                Some(c) => Some(c@),
                None => None,
            },
            compare_mode: self.compare_mode,
            repeater_delay: self.repeater_delay,
            span: self.span,
        }
    }
}

impl View for WireDecl {
    type V = WireView;

    open spec fn view(&self) -> WireView {
        WireView { name: self.name@, kind: self.kind, span: self.span }
    }
}

/// The values of a sequence of gate instances.
pub open spec fn gate_views(s: Seq<GateInst>) -> Seq<GateView> {
    s.map_values(|g: GateInst| g@)
}

/// The values of a sequence of wire declarations.
pub open spec fn wire_views(s: Seq<WireDecl>) -> Seq<WireView> {
    s.map_values(|w: WireDecl| w@)
}

} // verus!
