//! The programmatic builder path: construct a circuit in Rust, validate it,
//! and hand it to the engine, with no SPICE file involved.
//!
//! `CircuitDef` accumulates devices, nets and constraints; each device or net
//! is configured by a closure that runs once, in the call. `build` validates
//! the whole definition and yields an immutable [`BuiltCircuit`]. Every
//! constraint is either forwarded to the engine or reported as a
//! [`BuildWarning::UnsupportedConstraint`]: nothing is dropped silently.
//! [`build_errors`] and [`build_warnings`] state what `build` reports.
use vstd::prelude::*;

use crate::engine::{
    constraint_kind, engine_supported, flow_shape, pair_names, spec_device_refs, str_views,
    Constraint, HintBuilder, Objective, RunConfig,
};
use crate::error::ApiError;
use crate::flow::{placed_geometry, solve_netlist};
use crate::layout::Layout;
use crate::pdk::Pdk;
use crate::port::{DeviceKind, PortRef};
use crate::spice::{bare_device, device_total, kind_of, strs, SpiceNetlist};
use crate::text::digits_u64;

verus! {

/// Per-device parameters, set inside a device's configuration closure.
#[derive(Debug, Clone)]
pub struct DeviceBuilder {
    kind: Option<DeviceKind>,
}

impl DeviceBuilder {
    /// The kind of device this builder configures.
    pub closed spec fn spec_kind(&self) -> Option<DeviceKind> {
        self.kind
    }

    /// Set the finger count. Parameters are accepted for the circuit's
    /// description; the builder records only the device kind.
    pub fn nf(&mut self, nf: u32) -> (r: &mut DeviceBuilder)
        ensures
            *r == *old(self),
            *final(self) == *final(r),
    {
        self
    }

    /// The device kind this builder is for.
    pub fn device_kind(&self) -> (k: Option<DeviceKind>)
        ensures
            k == self.spec_kind(),
    {
        self.kind
    }
}

/// The terminals bound to one net.
#[derive(Debug, Clone)]
pub struct NetBuilder {
    connections: Vec<(String, PortRef)>,
}

/// The bindings of a net as plain values: device name and terminal.
pub open spec fn bindings(v: Seq<(String, PortRef)>) -> Seq<(Seq<char>, PortRef)> {
    v.map_values(|c: (String, PortRef)| (c.0@, c.1))
}

impl NetBuilder {
    /// The terminals bound to this net, in order.
    pub closed spec fn spec_bindings(&self) -> Seq<(Seq<char>, PortRef)> {
        bindings(self.connections@)
    }

    /// A net with no terminal.
    pub fn new() -> (n: NetBuilder)
        ensures
            n.spec_bindings() == Seq::<(Seq<char>, PortRef)>::empty(),
    {
        let n = NetBuilder { connections: Vec::new() };
        proof {
            assert(n.spec_bindings() =~= Seq::<(Seq<char>, PortRef)>::empty());
        }
        n
    }

    /// Bind a device terminal to this net. Accepts any `Into<PortRef>`: a typed
    /// port (`MosfetPort::Gate`) or one resolved by name.
    pub fn connect<P: Into<PortRef>>(&mut self, device: &str, port: P) -> (r: &mut NetBuilder)
        ensures
            r.spec_bindings().len() == old(self).spec_bindings().len() + 1,
            r.spec_bindings().drop_last() == old(self).spec_bindings(),
            r.spec_bindings().last().0 == device@,
            *final(self) == *final(r),
    {
        let p: PortRef = port.into();
        let ghost before = self.connections@;
        self.connections.push((String::from_str(device), p));
        proof {
            assert(bindings(self.connections@).drop_last() =~= bindings(before));
        }
        self
    }

    /// How many terminals are bound to this net.
    pub fn connection_count(&self) -> (n: usize)
        ensures
            n == self.spec_bindings().len(),
    {
        self.connections.len()
    }
}

/// A single validation error, as plain values.
pub enum BuildErrorModel {
    DuplicateDevice(Seq<char>),
    DuplicateNet(Seq<char>),
    TerminalConflict { device: Seq<char>, port: Seq<char>, net_a: Seq<char>, net_b: Seq<char> },
    UnknownDevice(Seq<char>),
}

/// A single validation error.
#[derive(Debug, Clone, PartialEq, Eq)]
#[non_exhaustive]
pub enum BuildError {
    DuplicateDevice(String),
    DuplicateNet(String),
    TerminalConflict { device: String, port: String, net_a: String, net_b: String },
    UnknownDevice(String),
}

impl View for BuildError {
    type V = BuildErrorModel;

    open spec fn view(&self) -> BuildErrorModel {
        match self {
            BuildError::DuplicateDevice(n) => BuildErrorModel::DuplicateDevice(n@),
            BuildError::DuplicateNet(n) => BuildErrorModel::DuplicateNet(n@),
            BuildError::TerminalConflict { device, port, net_a, net_b } => BuildErrorModel::TerminalConflict {
                device: device@,
                port: port@,
                net_a: net_a@,
                net_b: net_b@,
            },
            BuildError::UnknownDevice(n) => BuildErrorModel::UnknownDevice(n@),
        }
    }
}

/// The views of a list of errors.
pub open spec fn error_views(v: Seq<BuildError>) -> Seq<BuildErrorModel> {
    v.map_values(|e: BuildError| e@)
}

/// The aggregate error returned by [`CircuitDef::build`].
#[derive(Debug, Clone, PartialEq, Eq)]
pub enum ApiBuildError {
    Validation(Vec<BuildError>),
}

impl ApiBuildError {
    /// The individual validation errors, as plain values.
    pub open spec fn spec_errors(&self) -> Seq<BuildErrorModel> {
        match self {
            ApiBuildError::Validation(v) => error_views(v@),
        }
    }

    /// The individual validation errors.
    pub fn errors(&self) -> (r: &[BuildError])
        ensures
            error_views(r@) == self.spec_errors(),
    {
        match self {
            ApiBuildError::Validation(v) => v.as_slice(),
        }
    }

    /// Whether any error satisfies `pred`: the errors are tried in order until
    /// `pred` holds for one.
    pub fn contains<P: Fn(&BuildError) -> bool>(&self, pred: P) -> (found: bool)
        requires
            forall|e: &BuildError| call_requires(pred, (e,)),
        ensures
            found ==> exists|i: int|
                0 <= i < self.spec_errors().len() && call_ensures(pred, (&self->Validation_0@[i],), true),
            !found ==> forall|i: int|
                0 <= i < self.spec_errors().len() ==> call_ensures(pred, (&self->Validation_0@[i],), false),
    {
        match self {
            ApiBuildError::Validation(v) => {
                let mut i: usize = 0;
                while i < v.len()
                    invariant
                        i <= v@.len(),
                        self->Validation_0 == *v,
                        forall|e: &BuildError| call_requires(pred, (e,)),
                        forall|j: int| 0 <= j < i ==> call_ensures(pred, (&v@[j],), false),
                    decreases v@.len() - i,
                {
                    let hit = pred(&v[i]);
                    if hit {
                        proof {
                            assert(call_ensures(pred, (&v@[i as int],), true));
                            assert(self.spec_errors().len() == v@.len());
                        }
                        return true;
                    }
                    i = i + 1;
                }
                false
            },
        }
    }

    /// The human-readable text of this error.
    pub fn message(&self) -> (s: String)
        ensures
            s@ == "circuit validation failed: "@ + nat_digits_of(self.spec_errors().len()) + " error(s)"@,
    {
        match self {
            ApiBuildError::Validation(v) => {
                let mut s = String::from_str("circuit validation failed: ");
                let d = digits_u64(v.len() as u64);
                s.append(d.as_str());
                s.append(" error(s)");
                s
            },
        }
    }
}

/// The decimal digits of a count.
pub open spec fn nat_digits_of(n: nat) -> Seq<char> {
    crate::text::nat_digits(n)
}

/// A non-fatal build warning, as plain values.
pub enum BuildWarningModel {
    FloatingNet(Seq<char>),
    UnsupportedConstraint(&'static str),
}

/// A non-fatal build warning.
#[derive(Debug, Clone, PartialEq, Eq)]
#[non_exhaustive]
pub enum BuildWarning {
    /// A net with fewer than two terminals.
    FloatingNet(String),
    /// A constraint the engine recognizes but does not yet honor.
    UnsupportedConstraint(&'static str),
}

impl View for BuildWarning {
    type V = BuildWarningModel;

    open spec fn view(&self) -> BuildWarningModel {
        match self {
            BuildWarning::FloatingNet(n) => BuildWarningModel::FloatingNet(n@),
            BuildWarning::UnsupportedConstraint(k) => BuildWarningModel::UnsupportedConstraint(*k),
        }
    }
}

/// The views of a list of warnings.
pub open spec fn warning_views(v: Seq<BuildWarning>) -> Seq<BuildWarningModel> {
    v.map_values(|w: BuildWarning| w@)
}

// ===========================================================================
// The circuit definition
// ===========================================================================

/// A circuit definition as plain values: devices with their kinds, nets with
/// their bindings, and constraints, each in the order they were added.
pub struct CircuitModel {
    pub devices: Seq<(Seq<char>, DeviceKind)>,
    pub nets: Seq<(Seq<char>, Seq<(Seq<char>, PortRef)>)>,
    pub constraints: Seq<Constraint>,
}

/// An accumulating circuit builder.
#[derive(Debug, Clone)]
pub struct CircuitDef {
    devices: Vec<(String, DeviceKind)>,
    nets: Vec<(String, NetBuilder)>,
    constraints: Vec<Constraint>,
}

impl View for CircuitDef {
    type V = CircuitModel;

    closed spec fn view(&self) -> CircuitModel {
        CircuitModel {
            devices: self.devices@.map_values(|d: (String, DeviceKind)| (d.0@, d.1)),
            nets: self.nets@.map_values(|n: (String, NetBuilder)| (n.0@, n.1.spec_bindings())),
            constraints: self.constraints@,
        }
    }
}

/// The definition with nothing in it.
pub open spec fn empty_circuit() -> CircuitModel {
    CircuitModel { devices: seq![], nets: seq![], constraints: seq![] }
}

impl Default for CircuitDef {
    fn default() -> (c: CircuitDef)
        ensures
            c@ == empty_circuit(),
    {
        CircuitDef::new()
    }
}

impl CircuitDef {
    /// A fresh, empty builder.
    pub fn new() -> (c: CircuitDef)
        ensures
            c@ == empty_circuit(),
    {
        let c = CircuitDef { devices: Vec::new(), nets: Vec::new(), constraints: Vec::new() };
        proof {
            assert(c@.devices =~= Seq::<(Seq<char>, DeviceKind)>::empty());
            assert(c@.nets =~= Seq::<(Seq<char>, Seq<(Seq<char>, PortRef)>)>::empty());
            assert(c@.constraints =~= Seq::<Constraint>::empty());
        }
        c
    }

    fn add_device<F>(&mut self, name: &str, kind: DeviceKind, f: F) -> (r: &mut CircuitDef) where
        F: FnOnce(&mut DeviceBuilder) -> &mut DeviceBuilder,

        requires
            forall|b: &mut DeviceBuilder| call_requires(f, (b,)),
        ensures
            (*r)@ == (CircuitModel { devices: old(self)@.devices.push((name@, kind)), ..old(self)@ }),
            *final(self) == *final(r),
    {
        let mut b = DeviceBuilder { kind: Some(kind) };
        f(&mut b);
        let ghost before = self@;
        self.devices.push((String::from_str(name), kind));
        proof {
            assert(self@.devices =~= before.devices.push((name@, kind)));
        }
        self
    }

    /// Add an NMOS transistor configured by `f`.
    pub fn nmos<F>(&mut self, name: &str, f: F) -> (r: &mut CircuitDef) where
        F: FnOnce(&mut DeviceBuilder) -> &mut DeviceBuilder,

        requires
            forall|b: &mut DeviceBuilder| call_requires(f, (b,)),
        ensures
            (*r)@ == (CircuitModel { devices: old(self)@.devices.push((name@, DeviceKind::Nmos)), ..old(self)@ }),
            *final(self) == *final(r),
    {
        self.add_device(name, DeviceKind::Nmos, f)
    }

    /// Add a PMOS transistor configured by `f`.
    pub fn pmos<F>(&mut self, name: &str, f: F) -> (r: &mut CircuitDef) where
        F: FnOnce(&mut DeviceBuilder) -> &mut DeviceBuilder,

        requires
            forall|b: &mut DeviceBuilder| call_requires(f, (b,)),
        ensures
            (*r)@ == (CircuitModel { devices: old(self)@.devices.push((name@, DeviceKind::Pmos)), ..old(self)@ }),
            *final(self) == *final(r),
    {
        self.add_device(name, DeviceKind::Pmos, f)
    }

    /// Add a resistor configured by `f`.
    pub fn resistor<F>(&mut self, name: &str, f: F) -> (r: &mut CircuitDef) where
        F: FnOnce(&mut DeviceBuilder) -> &mut DeviceBuilder,

        requires
            forall|b: &mut DeviceBuilder| call_requires(f, (b,)),
        ensures
            (*r)@ == (CircuitModel {
                devices: old(self)@.devices.push((name@, DeviceKind::Resistor)),
                ..old(self)@
            }),
            *final(self) == *final(r),
    {
        self.add_device(name, DeviceKind::Resistor, f)
    }

    /// Add a capacitor configured by `f`.
    pub fn capacitor<F>(&mut self, name: &str, f: F) -> (r: &mut CircuitDef) where
        F: FnOnce(&mut DeviceBuilder) -> &mut DeviceBuilder,

        requires
            forall|b: &mut DeviceBuilder| call_requires(f, (b,)),
        ensures
            (*r)@ == (CircuitModel {
                devices: old(self)@.devices.push((name@, DeviceKind::Capacitor)),
                ..old(self)@
            }),
            *final(self) == *final(r),
    {
        self.add_device(name, DeviceKind::Capacitor, f)
    }

    /// Add a bipolar transistor configured by `f`.
    pub fn bjt<F>(&mut self, name: &str, f: F) -> (r: &mut CircuitDef) where
        F: FnOnce(&mut DeviceBuilder) -> &mut DeviceBuilder,

        requires
            forall|b: &mut DeviceBuilder| call_requires(f, (b,)),
        ensures
            (*r)@ == (CircuitModel { devices: old(self)@.devices.push((name@, DeviceKind::Bjt)), ..old(self)@ }),
            *final(self) == *final(r),
    {
        self.add_device(name, DeviceKind::Bjt, f)
    }

    /// Add a diode configured by `f`.
    pub fn diode<F>(&mut self, name: &str, f: F) -> (r: &mut CircuitDef) where
        F: FnOnce(&mut DeviceBuilder) -> &mut DeviceBuilder,

        requires
            forall|b: &mut DeviceBuilder| call_requires(f, (b,)),
        ensures
            (*r)@ == (CircuitModel { devices: old(self)@.devices.push((name@, DeviceKind::Diode)), ..old(self)@ }),
            *final(self) == *final(r),
    {
        self.add_device(name, DeviceKind::Diode, f)
    }

    /// Add a generic (subcircuit) instance configured by `f`.
    pub fn generic<F>(&mut self, name: &str, f: F) -> (r: &mut CircuitDef) where
        F: FnOnce(&mut DeviceBuilder) -> &mut DeviceBuilder,

        requires
            forall|b: &mut DeviceBuilder| call_requires(f, (b,)),
        ensures
            (*r)@ == (CircuitModel {
                devices: old(self)@.devices.push((name@, DeviceKind::Generic)),
                ..old(self)@
            }),
            *final(self) == *final(r),
    {
        self.add_device(name, DeviceKind::Generic, f)
    }

    /// Declare a net and its terminal connections, made by `f`.
    pub fn net<F>(&mut self, name: &str, f: F) -> (r: &mut CircuitDef) where
        F: FnOnce(&mut NetBuilder) -> &mut NetBuilder,

        requires
            forall|b: &mut NetBuilder| call_requires(f, (b,)),
        ensures
            (*r)@.devices == old(self)@.devices,
            (*r)@.constraints == old(self)@.constraints,
            (*r)@.nets.len() == old(self)@.nets.len() + 1,
            (*r)@.nets.drop_last() == old(self)@.nets,
            (*r)@.nets.last().0 == name@,
            *final(self) == *final(r),
    {
        let mut b = NetBuilder::new();
        f(&mut b);
        let ghost before = self@;
        self.nets.push((String::from_str(name), b));
        proof {
            assert(self@.nets.drop_last() =~= before.nets);
            assert(self@.devices =~= before.devices);
        }
        self
    }

    /// Attach a layout constraint.
    pub fn constrain(&mut self, c: Constraint) -> (r: &mut CircuitDef)
        ensures
            (*r)@ == (CircuitModel { constraints: old(self)@.constraints.push(c), ..old(self)@ }),
            *final(self) == *final(r),
    {
        let ghost before = self@;
        self.constraints.push(c);
        proof {
            assert(self@.constraints =~= before.constraints.push(c));
            assert(self@.devices =~= before.devices);
            assert(self@.nets =~= before.nets);
        }
        self
    }
}

// ===========================================================================
// Validation
// ===========================================================================

/// The names of the devices, in order.
pub open spec fn device_names(m: CircuitModel) -> Seq<Seq<char>> {
    m.devices.map_values(|d: (Seq<char>, DeviceKind)| d.0)
}

/// The names of the nets, in order.
pub open spec fn net_names(m: CircuitModel) -> Seq<Seq<char>> {
    m.nets.map_values(|n: (Seq<char>, Seq<(Seq<char>, PortRef)>)| n.0)
}

/// One error per repeated name, at each repeat, in order: `DuplicateNet`
/// when `net`, else `DuplicateDevice`.
pub open spec fn dup_errors(names: Seq<Seq<char>>, net: bool) -> Seq<BuildErrorModel>
    decreases names.len(),
{
    if names.len() == 0 {
        seq![]
    } else {
        let last = names.last();
        dup_errors(names.drop_last(), net) + if names.drop_last().contains(last) {
            if net {
                seq![BuildErrorModel::DuplicateNet(last)]
            } else {
                seq![BuildErrorModel::DuplicateDevice(last)]
            }
        } else {
            seq![]
        }
    }
}

/// One terminal binding of a net: the net, the device, and the terminal's
/// index and name.
pub struct Conn {
    pub net: Seq<char>,
    pub dev: Seq<char>,
    pub idx: u8,
    pub port: &'static str,
}

/// The bindings of one net.
pub open spec fn net_conns(n: (Seq<char>, Seq<(Seq<char>, PortRef)>)) -> Seq<Conn> {
    n.1.map_values(
        |b: (Seq<char>, PortRef)| Conn { net: n.0, dev: b.0, idx: b.1.spec_idx(), port: b.1.spec_name() },
    )
}

/// The bindings of every net, net by net, in order.
pub open spec fn flat_conns(nets: Seq<(Seq<char>, Seq<(Seq<char>, PortRef)>)>) -> Seq<Conn>
    decreases nets.len(),
{
    if nets.len() == 0 {
        seq![]
    } else {
        flat_conns(nets.drop_last()) + net_conns(nets.last())
    }
}

/// The first binding at or after `j` of the terminal `idx` of device `dev`
/// (`prev.len()` if none): the net that claimed it.
pub open spec fn first_claim(prev: Seq<Conn>, dev: Seq<char>, idx: u8, j: int) -> int
    decreases prev.len() - j,
{
    if j >= prev.len() || j < 0 {
        prev.len() as int
    } else if prev[j].dev == dev && prev[j].idx == idx {
        j
    } else {
        first_claim(prev, dev, idx, j + 1)
    }
}

/// The error a binding raises after the bindings `prev`: an unknown device,
/// or a terminal first claimed by another net.
pub open spec fn conn_error(known: Seq<Seq<char>>, prev: Seq<Conn>, c: Conn) -> Seq<BuildErrorModel> {
    if !known.contains(c.dev) {
        seq![BuildErrorModel::UnknownDevice(c.dev)]
    } else {
        let j = first_claim(prev, c.dev, c.idx, 0);
        if j < prev.len() && prev[j].net != c.net {
            seq![
                BuildErrorModel::TerminalConflict {
                    device: c.dev,
                    port: c.port@,
                    net_a: prev[j].net,
                    net_b: c.net,
                },
            ]
        } else {
            seq![]
        }
    }
}

/// The errors of all bindings, in order.
pub open spec fn conn_errors(known: Seq<Seq<char>>, conns: Seq<Conn>) -> Seq<BuildErrorModel>
    decreases conns.len(),
{
    if conns.len() == 0 {
        seq![]
    } else {
        conn_errors(known, conns.drop_last()) + conn_error(known, conns.drop_last(), conns.last())
    }
}

/// One `UnknownDevice` per reference to a device not declared.
pub open spec fn unknown_refs(known: Seq<Seq<char>>, refs: Seq<Seq<char>>) -> Seq<BuildErrorModel>
    decreases refs.len(),
{
    if refs.len() == 0 {
        seq![]
    } else {
        unknown_refs(known, refs.drop_last()) + if known.contains(refs.last()) {
            seq![]
        } else {
            seq![BuildErrorModel::UnknownDevice(refs.last())]
        }
    }
}

/// The errors of the constraints' device references, in order.
pub open spec fn constraint_errors(known: Seq<Seq<char>>, cs: Seq<Constraint>) -> Seq<BuildErrorModel>
    decreases cs.len(),
{
    if cs.len() == 0 {
        seq![]
    } else {
        constraint_errors(known, cs.drop_last()) + unknown_refs(known, spec_device_refs(cs.last()))
    }
}

/// Every validation error of a definition, in the order `build` reports
/// them: duplicate devices, duplicate nets, binding errors, then constraint
/// references.
pub open spec fn build_errors(m: CircuitModel) -> Seq<BuildErrorModel> {
    dup_errors(device_names(m), false) + dup_errors(net_names(m), true) + conn_errors(
        device_names(m),
        flat_conns(m.nets),
    ) + constraint_errors(device_names(m), m.constraints)
}

/// One `FloatingNet` per net with fewer than two terminals, in order.
pub open spec fn floating_warnings(nets: Seq<(Seq<char>, Seq<(Seq<char>, PortRef)>)>) -> Seq<BuildWarningModel>
    decreases nets.len(),
{
    if nets.len() == 0 {
        seq![]
    } else {
        floating_warnings(nets.drop_last()) + if nets.last().1.len() < 2 {
            seq![BuildWarningModel::FloatingNet(nets.last().0)]
        } else {
            seq![]
        }
    }
}

/// One `UnsupportedConstraint` per constraint the engine does not forward.
pub open spec fn unsupported_warnings(cs: Seq<Constraint>) -> Seq<BuildWarningModel>
    decreases cs.len(),
{
    if cs.len() == 0 {
        seq![]
    } else {
        unsupported_warnings(cs.drop_last()) + if engine_supported(cs.last()) {
            seq![]
        } else {
            seq![BuildWarningModel::UnsupportedConstraint(constraint_kind(cs.last()))]
        }
    }
}

proof fn lemma_floating_members(nets: Seq<(Seq<char>, Seq<(Seq<char>, PortRef)>)>, n: Seq<char>)
    ensures
        floating_warnings(nets).contains(BuildWarningModel::FloatingNet(n)) <==> exists|i: int|
            0 <= i < nets.len() && #[trigger] nets[i].0 == n && nets[i].1.len() < 2,
    decreases nets.len(),
{
    if nets.len() > 0 {
        let front = nets.drop_last();
        lemma_floating_members(front, n);
        let tail = if nets.last().1.len() < 2 {
            seq![BuildWarningModel::FloatingNet(nets.last().0)]
        } else {
            seq![]
        };
        let w = floating_warnings(front);
        assert(floating_warnings(nets) == w + tail);
        if floating_warnings(nets).contains(BuildWarningModel::FloatingNet(n)) {
            let k = choose|k: int| 0 <= k < (w + tail).len() && (w + tail)[k] == BuildWarningModel::FloatingNet(n);
            if k < w.len() {
                assert(w[k] == (w + tail)[k]);
                assert(w.contains(BuildWarningModel::FloatingNet(n)));
                let i = choose|i: int| 0 <= i < front.len() && #[trigger] front[i].0 == n && front[i].1.len() < 2;
                assert(nets[i] == front[i]);
            } else {
                assert(tail[k - w.len()] == (w + tail)[k]);
                let i = nets.len() - 1;
                assert(nets[i].0 == n && nets[i].1.len() < 2);
            }
        }
        if exists|i: int| 0 <= i < nets.len() && #[trigger] nets[i].0 == n && nets[i].1.len() < 2 {
            let i = choose|i: int| 0 <= i < nets.len() && #[trigger] nets[i].0 == n && nets[i].1.len() < 2;
            if i < nets.len() - 1 {
                assert(front[i] == nets[i]);
                assert(exists|j: int| 0 <= j < front.len() && #[trigger] front[j].0 == n && front[j].1.len() < 2);
                let k = choose|k: int| 0 <= k < w.len() && w[k] == BuildWarningModel::FloatingNet(n);
                assert((w + tail)[k] == w[k]);
            } else {
                assert((w + tail)[w.len() as int] == BuildWarningModel::FloatingNet(n));
            }
        }
    }
}

proof fn lemma_unsupported_not_floating(cs: Seq<Constraint>, n: Seq<char>)
    ensures
        !unsupported_warnings(cs).contains(BuildWarningModel::FloatingNet(n)),
    decreases cs.len(),
{
    if cs.len() > 0 {
        lemma_unsupported_not_floating(cs.drop_last(), n);
        let w = unsupported_warnings(cs.drop_last());
        let tail = if engine_supported(cs.last()) {
            seq![]
        } else {
            seq![BuildWarningModel::UnsupportedConstraint(constraint_kind(cs.last()))]
        };
        assert(unsupported_warnings(cs) == w + tail);
        if (w + tail).contains(BuildWarningModel::FloatingNet(n)) {
            let k = choose|k: int| 0 <= k < (w + tail).len() && (w + tail)[k] == BuildWarningModel::FloatingNet(n);
            if k < w.len() {
                assert(w[k] == (w + tail)[k]);
            } else {
                assert(tail[k - w.len()] == (w + tail)[k]);
            }
        }
    }
}

/// A valid definition draws a `FloatingNet` warning for a name exactly when
/// some net of that name has fewer than two terminals: a net joining two or
/// more terminals is never reported floating.
pub proof fn lemma_floating_net_warning(m: CircuitModel, n: Seq<char>)
    ensures
        build_warnings(m).contains(BuildWarningModel::FloatingNet(n)) <==> exists|i: int|
            0 <= i < m.nets.len() && #[trigger] m.nets[i].0 == n && m.nets[i].1.len() < 2,
{
    lemma_floating_members(m.nets, n);
    lemma_unsupported_not_floating(m.constraints, n);
    let a = floating_warnings(m.nets);
    let b = unsupported_warnings(m.constraints);
    let f = BuildWarningModel::FloatingNet(n);
    if (a + b).contains(f) {
        let k = choose|k: int| 0 <= k < (a + b).len() && (a + b)[k] == f;
        if k < a.len() {
            assert(a[k] == (a + b)[k]);
        } else {
            assert(b[k - a.len()] == (a + b)[k]);
        }
    }
    if a.contains(f) {
        let k = choose|k: int| 0 <= k < a.len() && a[k] == f;
        assert((a + b)[k] == a[k]);
    }
}

/// The warnings of a valid definition: floating nets, then unsupported
/// constraints.
pub open spec fn build_warnings(m: CircuitModel) -> Seq<BuildWarningModel> {
    floating_warnings(m.nets) + unsupported_warnings(m.constraints)
}

/// Two constraints are the same: the same variant, with the same names (as
/// character sequences, pair by pair for a symmetric group) and the same
/// numbers, axes and distances.
pub open spec fn same_constraint(a: Constraint, b: Constraint) -> bool {
    match (a, b) {
        (Constraint::Symmetric(a1, a2), Constraint::Symmetric(b1, b2)) => a1@ == b1@ && a2@ == b2@,
        (Constraint::Matching(a1, a2), Constraint::Matching(b1, b2)) => a1@ == b1@ && a2@ == b2@,
        (Constraint::SelfSymmetric(a1), Constraint::SelfSymmetric(b1)) => a1@ == b1@,
        (Constraint::SymmetricGroup(p), Constraint::SymmetricGroup(q)) => pair_names(p@) == pair_names(q@),
        (Constraint::Order(a1, a2, x), Constraint::Order(b1, b2, y)) => a1@ == b1@ && a2@ == b2@ && x == y,
        (Constraint::Align(v, x), Constraint::Align(w, y)) => strs(v@) == strs(w@) && x == y,
        (Constraint::DistanceConstraint(a1, a2, d), Constraint::DistanceConstraint(b1, b2, e)) => a1@
            == b1@ && a2@ == b2@ && d == e,
        (Constraint::GuardRing(v, n), Constraint::GuardRing(w, m)) => strs(v@) == strs(w@) && n@ == m@,
        (Constraint::NetShield(n), Constraint::NetShield(m)) => n@ == m@,
        (Constraint::SetNetClass(n, k), Constraint::SetNetClass(m, l)) => n@ == m@ && k@ == l@,
        (Constraint::SignalFlow(v), Constraint::SignalFlow(w)) => strs(v@) == strs(w@),
        (Constraint::AspectRatio(a1, a2), Constraint::AspectRatio(b1, b2)) => a1 == b1 && a2 == b2,
        (Constraint::CellBoundary(w1, h1), Constraint::CellBoundary(w2, h2)) => w1 == w2 && h1 == h2,
        (Constraint::FixPosition(a1, x1, y1), Constraint::FixPosition(b1, x2, y2)) => a1@ == b1@ && x1
            == x2 && y1 == y2,
        (Constraint::PlaceOnGrid(a1, d), Constraint::PlaceOnGrid(b1, e)) => a1@ == b1@ && d == e,
        (Constraint::PlaceOnBoundary(a1, e1), Constraint::PlaceOnBoundary(b1, e2)) => a1@ == b1@ && e1@
            == e2@,
        (Constraint::Group(v, n), Constraint::Group(w, m)) => strs(v@) == strs(w@) && n@ == m@,
        (Constraint::PortLocation(p1, e1, f1), Constraint::PortLocation(p2, e2, f2)) => p1@ == p2@ && e1@
            == e2@ && f1 == f2,
        (Constraint::NetMatch(a1, a2, d), Constraint::NetMatch(b1, b2, e)) => a1@ == b1@ && a2@ == b2@
            && d == e,
        (Constraint::MultiWire(n, w1), Constraint::MultiWire(m, w2)) => n@ == m@ && w1 == w2,
        (Constraint::DoNotRoute(n), Constraint::DoNotRoute(m)) => n@ == m@,
        (Constraint::ChargeFlow(n), Constraint::ChargeFlow(m)) => n@ == m@,
        _ => false,
    }
}

/// Two constraint lists hold the same constraints in the same order (and so
/// agree kind by kind and in their device references).
pub open spec fn constraints_agree(a: Seq<Constraint>, b: Seq<Constraint>) -> bool {
    &&& a.len() == b.len()
    &&& forall|i: int|
        0 <= i < a.len() ==> same_constraint(#[trigger] a[i], b[i]) && constraint_kind(a[i])
            == constraint_kind(b[i]) && spec_device_refs(a[i]) == spec_device_refs(b[i])
}

fn copy_strings(v: &Vec<String>) -> (r: Vec<String>)
    ensures
        strs(r@) == strs(v@),
{
    let mut r: Vec<String> = Vec::new();
    let mut i: usize = 0;
    while i < v.len()
        invariant
            i <= v@.len(),
            r@.len() == i,
            forall|k: int| 0 <= k < i ==> (#[trigger] r@[k])@ == v@[k]@,
        decreases v@.len() - i,
    {
        r.push(v[i].clone());
        i = i + 1;
    }
    proof {
        assert(strs(r@) =~= strs(v@));
    }
    r
}

fn copy_pairs(v: &Vec<(String, String)>) -> (r: Vec<(String, String)>)
    ensures
        pair_names(r@) == pair_names(v@),
{
    let mut r: Vec<(String, String)> = Vec::new();
    let mut i: usize = 0;
    while i < v.len()
        invariant
            i <= v@.len(),
            pair_names(r@) == pair_names(v@.take(i as int)),
        decreases v@.len() - i,
    {
        let ghost before = r@;
        r.push((v[i].0.clone(), v[i].1.clone()));
        proof {
            assert(r@.drop_last() =~= before);
            assert(v@.take(i + 1).drop_last() =~= v@.take(i as int));
            assert(pair_names(r@) =~= pair_names(v@.take(i + 1)));
        }
        i = i + 1;
    }
    proof {
        assert(v@.take(i as int) =~= v@);
    }
    r
}

/// A copy of a constraint: same kind, same fields.
fn copy_constraint(c: &Constraint) -> (r: Constraint)
    ensures
        same_constraint(r, *c),
        constraint_kind(r) == constraint_kind(*c),
        spec_device_refs(r) == spec_device_refs(*c),
{
    match c {
        Constraint::Symmetric(a, b) => Constraint::Symmetric(a.clone(), b.clone()),
        Constraint::Matching(a, b) => Constraint::Matching(a.clone(), b.clone()),
        Constraint::SelfSymmetric(a) => Constraint::SelfSymmetric(a.clone()),
        Constraint::SymmetricGroup(p) => Constraint::SymmetricGroup(copy_pairs(p)),
        Constraint::Order(a, b, x) => Constraint::Order(a.clone(), b.clone(), *x),
        Constraint::Align(v, x) => Constraint::Align(copy_strings(v), *x),
        Constraint::DistanceConstraint(a, b, d) => Constraint::DistanceConstraint(a.clone(), b.clone(), *d),
        Constraint::GuardRing(v, n) => Constraint::GuardRing(copy_strings(v), n.clone()),
        Constraint::NetShield(n) => Constraint::NetShield(n.clone()),
        Constraint::SetNetClass(n, k) => Constraint::SetNetClass(n.clone(), k.clone()),
        Constraint::SignalFlow(v) => Constraint::SignalFlow(copy_strings(v)),
        Constraint::AspectRatio(a, b) => Constraint::AspectRatio(*a, *b),
        Constraint::CellBoundary(w, h) => Constraint::CellBoundary(*w, *h),
        Constraint::FixPosition(a, x, y) => Constraint::FixPosition(a.clone(), *x, *y),
        Constraint::PlaceOnGrid(a, d) => Constraint::PlaceOnGrid(a.clone(), *d),
        Constraint::PlaceOnBoundary(a, e) => Constraint::PlaceOnBoundary(a.clone(), e.clone()),
        Constraint::Group(v, n) => Constraint::Group(copy_strings(v), n.clone()),
        Constraint::PortLocation(p, e, f) => Constraint::PortLocation(p.clone(), e.clone(), *f),
        Constraint::NetMatch(a, b, d) => Constraint::NetMatch(a.clone(), b.clone(), *d),
        Constraint::MultiWire(n, w) => Constraint::MultiWire(n.clone(), *w),
        Constraint::DoNotRoute(n) => Constraint::DoNotRoute(n.clone()),
        Constraint::ChargeFlow(n) => Constraint::ChargeFlow(n.clone()),
    }
}

/// A validated, immutable circuit ready to solve.
#[derive(Debug, Clone)]
pub struct BuiltCircuit {
    netlist: SpiceNetlist,
    net_count: usize,
    constraints: Vec<Constraint>,
    warnings: Vec<BuildWarning>,
}

impl BuiltCircuit {
    /// The netlist of the circuit: one bare top-level device per device.
    pub closed spec fn spec_netlist(&self) -> SpiceNetlist {
        self.netlist
    }

    /// The number of nets declared.
    pub closed spec fn spec_net_count(&self) -> nat {
        self.net_count as nat
    }

    /// The constraints carried, in order.
    pub closed spec fn spec_constraints(&self) -> Seq<Constraint> {
        self.constraints@
    }

    /// The build warnings, in order.
    pub closed spec fn spec_warnings(&self) -> Seq<BuildWarningModel> {
        warning_views(self.warnings@)
    }

    /// The netlist is well formed and flat, and its device count fits in a
    /// `usize`.
    pub closed spec fn wf(&self) -> bool {
        &&& self.netlist.wf()
        &&& self.netlist@.defs.len() == 0
        &&& device_total(self.netlist@) <= usize::MAX
    }

    /// The number of devices.
    pub fn device_count(&self) -> (n: usize)
        ensures
            n == self.spec_netlist()@.top.len(),
    {
        self.netlist.top_device_count()
    }

    /// The number of nets.
    pub fn net_count(&self) -> (n: usize)
        ensures
            n == self.spec_net_count(),
    {
        self.net_count
    }

    /// The constraints, in the order they were added.
    pub fn constraints(&self) -> (r: &[Constraint])
        ensures
            r@ == self.spec_constraints(),
    {
        self.constraints.as_slice()
    }

    /// The warnings of the build.
    pub fn warnings(&self) -> (r: &[BuildWarning])
        ensures
            warning_views(r@) == self.spec_warnings(),
    {
        self.warnings.as_slice()
    }

    /// The netlist of the circuit.
    pub fn netlist(&self) -> (r: &SpiceNetlist)
        ensures
            *r == self.spec_netlist(),
    {
        &self.netlist
    }
}

/// A build result that also carries its warnings as a value.
#[derive(Debug, Clone)]
pub struct BuildResult {
    pub circuit: BuiltCircuit,
    pub warnings: Vec<BuildWarning>,
}

/// Some earlier entry has the name of entry `i`.
fn seen_before<T>(v: &Vec<(String, T)>, i: usize) -> (b: bool)
    requires
        i < v@.len(),
    ensures
        b == exists|j: int| 0 <= j < i && v@[j].0@ == v@[i as int].0@,
{
    let mut j: usize = 0;
    while j < i
        invariant
            j <= i < v@.len(),
            forall|k: int| 0 <= k < j ==> v@[k].0@ != v@[i as int].0@,
        decreases i - j,
    {
        if v[j].0 == v[i].0 {
            return true;
        }
        j = j + 1;
    }
    false
}

impl CircuitDef {
    proof fn lemma_names(&self)
        ensures
            device_names(self@).len() == self.devices@.len(),
            forall|k: int| 0 <= k < self.devices@.len() ==> #[trigger] device_names(self@)[k] == self.devices@[k].0@,
            net_names(self@).len() == self.nets@.len(),
            forall|k: int| 0 <= k < self.nets@.len() ==> #[trigger] net_names(self@)[k] == self.nets@[k].0@,
            self@.nets.len() == self.nets@.len(),
            forall|k: int|
                0 <= k < self.nets@.len() ==> #[trigger] self@.nets[k] == (self.nets@[k].0@, self.nets@[k].1.spec_bindings()),
            self@.constraints == self.constraints@,
    {
    }

    /// The name is one of the declared devices.
    fn is_known(&self, name: &String) -> (b: bool)
        ensures
            b == device_names(self@).contains(name@),
    {
        proof {
            self.lemma_names();
        }
        let mut i: usize = 0;
        while i < self.devices.len()
            invariant
                i <= self.devices@.len(),
                device_names(self@).len() == self.devices@.len(),
                forall|k: int| 0 <= k < self.devices@.len() ==> #[trigger] device_names(self@)[k] == self.devices@[k].0@,
                forall|k: int| 0 <= k < i ==> self.devices@[k].0@ != name@,
            decreases self.devices@.len() - i,
        {
            if self.devices[i].0 == *name {
                proof {
                    assert(device_names(self@)[i as int] == name@);
                }
                return true;
            }
            i = i + 1;
        }
        proof {
            if device_names(self@).contains(name@) {
                let k = choose|k: int| 0 <= k < device_names(self@).len() && device_names(self@)[k] == name@;
                assert(self.devices@[k].0@ == name@);
            }
        }
        false
    }

    fn duplicate_errors(&self, errors: &mut Vec<BuildError>)
        ensures
            error_views(final(errors)@) == error_views(old(errors)@) + dup_errors(device_names(self@), false)
                + dup_errors(net_names(self@), true),
    {
        proof {
            self.lemma_names();
        }
        let ghost start = error_views(errors@);
        let ghost dn = device_names(self@);
        let ghost nn = net_names(self@);
        let mut i: usize = 0;
        while i < self.devices.len()
            invariant
                i <= self.devices@.len(),
                dn == device_names(self@),
                dn.len() == self.devices@.len(),
                forall|k: int| 0 <= k < self.devices@.len() ==> #[trigger] dn[k] == self.devices@[k].0@,
                error_views(errors@) == start + dup_errors(dn.take(i as int), false),
            decreases self.devices@.len() - i,
        {
            let dup = seen_before(&self.devices, i);
            let ghost prev = dn.take(i as int);
            proof {
                assert(dn.take(i + 1).drop_last() =~= prev);
                assert(dn.take(i + 1).last() == dn[i as int]);
                assert(dup == prev.contains(dn[i as int])) by {
                    if dup {
                        let j = choose|j: int| 0 <= j < i && self.devices@[j].0@ == self.devices@[i as int].0@;
                        assert(prev[j] == dn[i as int]);
                    }
                    if prev.contains(dn[i as int]) {
                        let j = choose|j: int| 0 <= j < prev.len() && prev[j] == dn[i as int];
                        assert(self.devices@[j].0@ == self.devices@[i as int].0@);
                    }
                }
            }
            proof {
                assert(dup_errors(dn.take(i + 1), false) == dup_errors(prev, false) + if dup {
                    seq![BuildErrorModel::DuplicateDevice(dn[i as int])]
                } else {
                    seq![]
                });
            }
            let ghost before = errors@;
            if dup {
                let name = self.devices[i].0.clone();
                errors.push(BuildError::DuplicateDevice(name));
                proof {
                    assert(error_views(errors@) =~= error_views(before).push(
                        BuildErrorModel::DuplicateDevice(dn[i as int]),
                    ));
                }
            }
            proof {
                assert(error_views(errors@) =~= start + dup_errors(dn.take(i + 1), false));
            }
            i = i + 1;
        }
        proof {
            assert(dn.take(i as int) =~= dn);
        }
        let ghost mid = error_views(errors@);
        let mut i: usize = 0;
        while i < self.nets.len()
            invariant
                i <= self.nets@.len(),
                nn == net_names(self@),
                nn.len() == self.nets@.len(),
                forall|k: int| 0 <= k < self.nets@.len() ==> #[trigger] nn[k] == self.nets@[k].0@,
                error_views(errors@) == mid + dup_errors(nn.take(i as int), true),
            decreases self.nets@.len() - i,
        {
            let dup = seen_before(&self.nets, i);
            let ghost prev = nn.take(i as int);
            proof {
                assert(nn.take(i + 1).drop_last() =~= prev);
                assert(nn.take(i + 1).last() == nn[i as int]);
                assert(dup == prev.contains(nn[i as int])) by {
                    if dup {
                        let j = choose|j: int| 0 <= j < i && self.nets@[j].0@ == self.nets@[i as int].0@;
                        assert(prev[j] == nn[i as int]);
                    }
                    if prev.contains(nn[i as int]) {
                        let j = choose|j: int| 0 <= j < prev.len() && prev[j] == nn[i as int];
                        assert(self.nets@[j].0@ == self.nets@[i as int].0@);
                    }
                }
            }
            proof {
                assert(dup_errors(nn.take(i + 1), true) == dup_errors(prev, true) + if dup {
                    seq![BuildErrorModel::DuplicateNet(nn[i as int])]
                } else {
                    seq![]
                });
            }
            let ghost before = errors@;
            if dup {
                let name = self.nets[i].0.clone();
                errors.push(BuildError::DuplicateNet(name));
                proof {
                    assert(error_views(errors@) =~= error_views(before).push(
                        BuildErrorModel::DuplicateNet(nn[i as int]),
                    ));
                }
            }
            proof {
                assert(error_views(errors@) =~= mid + dup_errors(nn.take(i + 1), true));
            }
            i = i + 1;
        }
        proof {
            assert(nn.take(i as int) =~= nn);
            assert(error_views(errors@) =~= start + dup_errors(dn, false) + dup_errors(nn, true));
        }
    }
}

/// The view of a flattened binding.
spec fn flat_view(f: (&String, &String, u8, &'static str)) -> Conn {
    Conn { net: f.0@, dev: f.1@, idx: f.2, port: f.3 }
}

/// The views of flattened bindings.
spec fn flat_views(v: Seq<(&String, &String, u8, &'static str)>) -> Seq<Conn> {
    v.map_values(|f: (&String, &String, u8, &'static str)| flat_view(f))
}

impl CircuitDef {
    /// Every binding of every net, net by net.
    fn flatten(&self) -> (flat: Vec<(&String, &String, u8, &'static str)>)
        ensures
            flat_views(flat@) == flat_conns(self@.nets),
    {
        proof {
            self.lemma_names();
        }
        let mut flat: Vec<(&String, &String, u8, &'static str)> = Vec::new();
        let mut ni: usize = 0;
        while ni < self.nets.len()
            invariant
                ni <= self.nets@.len(),
                self@.nets.len() == self.nets@.len(),
                forall|k: int|
                    0 <= k < self.nets@.len() ==> #[trigger] self@.nets[k] == (
                        self.nets@[k].0@,
                        self.nets@[k].1.spec_bindings(),
                    ),
                flat_views(flat@) == flat_conns(self@.nets.take(ni as int)),
            decreases self.nets@.len() - ni,
        {
            let net = &self.nets[ni];
            let ghost base = flat_views(flat@);
            let ghost nc = net_conns(self@.nets[ni as int]);
            let mut cj: usize = 0;
            while cj < net.1.connections.len()
                invariant
                    cj <= net.1.connections@.len(),
                    nc == net_conns((net.0@, net.1.spec_bindings())),
                    flat_views(flat@) == base + nc.take(cj as int),
                decreases net.1.connections@.len() - cj,
            {
                let b = &net.1.connections[cj];
                let ghost before = flat@;
                flat.push((&net.0, &b.0, b.1.idx(), b.1.name()));
                proof {
                    assert(flat_views(flat@) =~= flat_views(before).push(flat_view(flat@.last())));
                    assert(nc[cj as int] == flat_view(flat@.last()));
                    assert(nc.take(cj + 1) =~= nc.take(cj as int).push(nc[cj as int]));
                }
                cj = cj + 1;
            }
            proof {
                assert(nc.take(cj as int) =~= nc);
                assert(self@.nets.take(ni + 1).drop_last() =~= self@.nets.take(ni as int));
                assert(self@.nets.take(ni + 1).last() == self@.nets[ni as int]);
            }
            ni = ni + 1;
        }
        proof {
            assert(self@.nets.take(ni as int) =~= self@.nets);
        }
        flat
    }

    /// The first binding before `k` of the same terminal as binding `k`.
    fn first_claim_exec(flat: &Vec<(&String, &String, u8, &'static str)>, k: usize) -> (j: usize)
        requires
            k < flat@.len(),
        ensures
            j == first_claim(flat_views(flat@).take(k as int), flat@[k as int].1@, flat@[k as int].2, 0),
            j <= k,
    {
        let ghost prev = flat_views(flat@).take(k as int);
        let ghost dev = flat@[k as int].1@;
        let ghost idx = flat@[k as int].2;
        let mut j: usize = 0;
        while j < k
            invariant
                j <= k < flat@.len(),
                prev == flat_views(flat@).take(k as int),
                dev == flat@[k as int].1@,
                idx == flat@[k as int].2,
                first_claim(prev, dev, idx, j as int) == first_claim(prev, dev, idx, 0),
            decreases k - j,
        {
            if *flat[j].1 == *flat[k].1 && flat[j].2 == flat[k].2 {
                return j;
            }
            j = j + 1;
        }
        j
    }

    fn binding_errors(&self, errors: &mut Vec<BuildError>)
        ensures
            error_views(final(errors)@) == error_views(old(errors)@) + conn_errors(
                device_names(self@),
                flat_conns(self@.nets),
            ),
    {
        let flat = self.flatten();
        let ghost fv = flat_views(flat@);
        let ghost known = device_names(self@);
        let ghost start = error_views(errors@);
        let mut k: usize = 0;
        while k < flat.len()
            invariant
                k <= flat@.len(),
                fv == flat_views(flat@),
                known == device_names(self@),
                error_views(errors@) == start + conn_errors(known, fv.take(k as int)),
            decreases flat@.len() - k,
        {
            let ghost prev = fv.take(k as int);
            let ghost c = fv[k as int];
            proof {
                assert(fv.take(k + 1).drop_last() =~= prev);
                assert(fv.take(k + 1).last() == c);
            }
            let ghost before = error_views(errors@);
            if !self.is_known(flat[k].1) {
                errors.push(BuildError::UnknownDevice(flat[k].1.clone()));
                proof {
                    assert(error_views(errors@) =~= before + conn_error(known, prev, c));
                }
            } else {
                let j = Self::first_claim_exec(&flat, k);
                if j < k && *flat[j].0 != *flat[k].0 {
                    proof {
                        assert(prev[j as int] == fv[j as int]);
                    }
                    errors.push(
                        BuildError::TerminalConflict {
                            device: flat[k].1.clone(),
                            port: String::from_str(flat[k].3),
                            net_a: flat[j].0.clone(),
                            net_b: flat[k].0.clone(),
                        },
                    );
                    proof {
                        assert(error_views(errors@) =~= before + conn_error(known, prev, c));
                    }
                } else {
                    proof {
                        if j < k {
                            assert(prev[j as int] == fv[j as int]);
                        }
                        assert(conn_error(known, prev, c) =~= Seq::<BuildErrorModel>::empty());
                        assert(error_views(errors@) =~= before + conn_error(known, prev, c));
                    }
                }
            }
            k = k + 1;
        }
        proof {
            assert(fv.take(k as int) =~= fv);
        }
    }

    fn reference_errors(&self, errors: &mut Vec<BuildError>)
        ensures
            error_views(final(errors)@) == error_views(old(errors)@) + constraint_errors(
                device_names(self@),
                self@.constraints,
            ),
    {
        proof {
            self.lemma_names();
        }
        let ghost known = device_names(self@);
        let ghost cs = self@.constraints;
        let ghost start = error_views(errors@);
        let mut i: usize = 0;
        while i < self.constraints.len()
            invariant
                i <= self.constraints@.len(),
                cs == self.constraints@,
                known == device_names(self@),
                error_views(errors@) == start + constraint_errors(known, cs.take(i as int)),
            decreases self.constraints@.len() - i,
        {
            let refs = self.constraints[i].device_refs();
            let ghost rv = str_views(refs@);
            let ghost mid = error_views(errors@);
            let mut q: usize = 0;
            while q < refs.len()
                invariant
                    q <= refs@.len(),
                    rv == str_views(refs@),
                    known == device_names(self@),
                    error_views(errors@) == mid + unknown_refs(known, rv.take(q as int)),
                decreases refs@.len() - q,
            {
                let key = String::from_str(refs[q]);
                let ghost before = error_views(errors@);
                proof {
                    assert(rv.take(q + 1).drop_last() =~= rv.take(q as int));
                    assert(rv.take(q + 1).last() == key@);
                }
                let ghost kv = key@;
                let found = self.is_known(&key);
                proof {
                    assert(unknown_refs(known, rv.take(q + 1)) == unknown_refs(known, rv.take(q as int))
                        + if found {
                        seq![]
                    } else {
                        seq![BuildErrorModel::UnknownDevice(kv)]
                    });
                }
                let ghost pre = errors@;
                if !found {
                    errors.push(BuildError::UnknownDevice(key));
                    proof {
                        assert(error_views(errors@) =~= error_views(pre).push(BuildErrorModel::UnknownDevice(kv)));
                    }
                }
                proof {
                    assert(error_views(errors@) =~= mid + unknown_refs(known, rv.take(q + 1)));
                }
                q = q + 1;
            }
            proof {
                assert(rv.take(q as int) =~= rv);
                assert(cs.take(i + 1).drop_last() =~= cs.take(i as int));
                assert(cs.take(i + 1).last() == cs[i as int]);
                assert(error_views(errors@) =~= start + constraint_errors(known, cs.take(i + 1)));
            }
            i = i + 1;
        }
        proof {
            assert(cs.take(i as int) =~= cs);
        }
    }

    /// Validate and synthesize the circuit.
    ///
    /// Hard errors ([`build_errors`]): a duplicate device, a duplicate net, a
    /// net binding an unknown device, a terminal bound to two nets, a
    /// constraint referencing an unknown device. Warnings
    /// ([`build_warnings`]): floating nets and unsupported constraints.
    pub fn build(&mut self) -> (r: Result<BuiltCircuit, ApiBuildError>)
        ensures
            *final(self) == *old(self),
            match r {
                Err(e) => build_errors(old(self)@).len() > 0 && e.spec_errors() == build_errors(old(self)@),
                Ok(b) => {
                    &&& build_errors(old(self)@).len() == 0
                    &&& b.wf()
                    &&& b.spec_netlist()@.top == device_names(old(self)@).map_values(
                        |n: Seq<char>| bare_device(n, kind_of(n)),
                    )
                    &&& b.spec_net_count() == old(self)@.nets.len()
                    &&& constraints_agree(b.spec_constraints(), old(self)@.constraints)
                    &&& b.spec_warnings() == build_warnings(old(self)@)
                },
            },
    {
        let mut errors: Vec<BuildError> = Vec::new();
        proof {
            assert(error_views(errors@) =~= Seq::<BuildErrorModel>::empty());
        }
        self.duplicate_errors(&mut errors);
        self.binding_errors(&mut errors);
        self.reference_errors(&mut errors);
        proof {
            assert(error_views(errors@) =~= build_errors(self@));
        }
        if errors.len() > 0 {
            return Err(ApiBuildError::Validation(errors));
        }
        proof {
            self.lemma_names();
        }
        let mut warnings: Vec<BuildWarning> = Vec::new();
        let ghost nets = self@.nets;
        let mut i: usize = 0;
        while i < self.nets.len()
            invariant
                i <= self.nets@.len(),
                nets == self@.nets,
                nets.len() == self.nets@.len(),
                forall|k: int|
                    0 <= k < self.nets@.len() ==> #[trigger] nets[k] == (
                        self.nets@[k].0@,
                        self.nets@[k].1.spec_bindings(),
                    ),
                warning_views(warnings@) == floating_warnings(nets.take(i as int)),
            decreases self.nets@.len() - i,
        {
            if self.nets[i].1.connection_count() < 2 {
                warnings.push(BuildWarning::FloatingNet(self.nets[i].0.clone()));
            }
            proof {
                assert(nets.take(i + 1).drop_last() =~= nets.take(i as int));
                assert(nets.take(i + 1).last() == nets[i as int]);
                assert(warning_views(warnings@) =~= floating_warnings(nets.take(i + 1)));
            }
            i = i + 1;
        }
        proof {
            assert(nets.take(i as int) =~= nets);
        }
        let ghost fw = warning_views(warnings@);
        let ghost cs = self@.constraints;
        let mut copies: Vec<Constraint> = Vec::new();
        let mut i: usize = 0;
        while i < self.constraints.len()
            invariant
                i <= self.constraints@.len(),
                cs == self.constraints@,
                warning_views(warnings@) == fw + unsupported_warnings(cs.take(i as int)),
                copies@.len() == i,
                forall|k: int|
                    0 <= k < i ==> same_constraint(#[trigger] copies@[k], cs[k]) && constraint_kind(
                        copies@[k],
                    ) == constraint_kind(cs[k]) && spec_device_refs(copies@[k]) == spec_device_refs(cs[k]),
            decreases self.constraints@.len() - i,
        {
            let c = &self.constraints[i];
            let supported = c.is_engine_supported();
            proof {
                assert(cs.take(i + 1).drop_last() =~= cs.take(i as int));
                assert(cs.take(i + 1).last() == cs[i as int]);
                assert(unsupported_warnings(cs.take(i + 1)) == unsupported_warnings(cs.take(i as int)) + if supported {
                    seq![]
                } else {
                    seq![BuildWarningModel::UnsupportedConstraint(constraint_kind(cs[i as int]))]
                });
            }
            let ghost pre = warnings@;
            if !supported {
                let k = c.kind();
                warnings.push(BuildWarning::UnsupportedConstraint(k));
                proof {
                    assert(warning_views(warnings@) =~= warning_views(pre).push(
                        BuildWarningModel::UnsupportedConstraint(k),
                    ));
                }
            }
            copies.push(copy_constraint(c));
            proof {
                assert(cs.take(i + 1).drop_last() =~= cs.take(i as int));
                assert(cs.take(i + 1).last() == cs[i as int]);
                assert(warning_views(warnings@) =~= fw + unsupported_warnings(cs.take(i + 1)));
            }
            i = i + 1;
        }
        proof {
            assert(cs.take(i as int) =~= cs);
        }
        let mut names: Vec<String> = Vec::new();
        let mut i: usize = 0;
        while i < self.devices.len()
            invariant
                i <= self.devices@.len(),
                device_names(self@).len() == self.devices@.len(),
                forall|k: int| 0 <= k < self.devices@.len() ==> #[trigger] device_names(self@)[k] == self.devices@[k].0@,
                names@.len() == i,
                forall|k: int| 0 <= k < i ==> (#[trigger] names@[k])@ == device_names(self@)[k],
            decreases self.devices@.len() - i,
        {
            names.push(self.devices[i].0.clone());
            i = i + 1;
        }
        proof {
            assert(strs(names@) =~= device_names(self@));
        }
        let count = names.len();
        let netlist = SpiceNetlist::from_devices(names);
        let b = BuiltCircuit { netlist, net_count: self.nets.len(), constraints: copies, warnings };
        proof {
            assert(b.spec_warnings() =~= build_warnings(self@));
            assert(crate::spice::body_total(b.netlist@.defs) == 0);
            assert(b.netlist@.top.len() == count);
        }
        Ok(b)
    }
}

/// Nothing is dropped silently: every constraint is either forwarded to the
/// engine or named, by kind, in an `UnsupportedConstraint` warning.
pub proof fn lemma_constraints_forwarded_or_warned(cs: Seq<Constraint>, i: int)
    requires
        0 <= i < cs.len(),
    ensures
        engine_supported(cs[i]) || unsupported_warnings(cs).contains(
            BuildWarningModel::UnsupportedConstraint(constraint_kind(cs[i])),
        ),
    decreases cs.len(),
{
    let w = unsupported_warnings(cs);
    if i == cs.len() - 1 {
        if !engine_supported(cs[i]) {
            let k = w.len() - 1;
            assert(w[k] == BuildWarningModel::UnsupportedConstraint(constraint_kind(cs[i])));
        }
    } else {
        lemma_constraints_forwarded_or_warned(cs.drop_last(), i);
        if !engine_supported(cs[i]) {
            let prev = unsupported_warnings(cs.drop_last());
            let k = choose|k: int| 0 <= k < prev.len() && prev[k] == BuildWarningModel::UnsupportedConstraint(
                constraint_kind(cs[i]),
            );
            assert(w[k] == prev[k]);
        }
    }
}

/// Names that raise no duplicate error are pairwise distinct.
pub proof fn lemma_valid_build_names_distinct(names: Seq<Seq<char>>, net: bool)
    requires
        dup_errors(names, net).len() == 0,
    ensures
        forall|i: int, j: int| 0 <= i < j < names.len() ==> names[i] != names[j],
    decreases names.len(),
{
    if names.len() > 0 {
        let front = names.drop_last();
        assert(dup_errors(front, net).len() == 0);
        lemma_valid_build_names_distinct(front, net);
        assert forall|i: int, j: int| 0 <= i < j < names.len() implies names[i] != names[j] by {
            if j == names.len() - 1 {
                if names[i] == names[j] {
                    assert(front[i] == names.last());
                    assert(front.contains(names.last()));
                }
            } else {
                assert(front[i] == names[i] && front[j] == names[j]);
            }
        }
    }
}

impl BuiltCircuit {
    /// Solve the circuit at an objective preset: the whole flow over its
    /// netlist, with the objective's pitches.
    pub fn solve(&self, _pdk: &Pdk, objective: Objective) -> (r: Result<Layout, ApiError>)
        requires
            self.wf(),
        ensures
            device_total(self.spec_netlist()@) == 0 <==> r is Err,
            match r {
                Ok(l) => l.netlist_view() == self.spec_netlist()@ && l.gds_view() == placed_geometry()
                    && flow_shape(l.flow_view(), device_total(self.spec_netlist()@)),
                Err(e) => e == ApiError::EmptyNetlist,
            },
    {
        let cfg = objective.apply_to_config(RunConfig::default());
        solve_netlist(&self.netlist, cfg)
    }

    /// Solve with hints gathered by `f`. The hints are recorded; a seed
    /// perturbs the track pitch by `seed % 8` nanometres.
    pub fn solve_with<F: FnOnce(&mut HintBuilder)>(&self, _pdk: &Pdk, objective: Objective, f: F) -> (r: Result<
        Layout,
        ApiError,
    >)
        requires
            self.wf(),
            forall|h: &mut HintBuilder| call_requires(f, (h,)),
        ensures
            device_total(self.spec_netlist()@) == 0 <==> r is Err,
            match r {
                Ok(l) => l.netlist_view() == self.spec_netlist()@ && l.gds_view() == placed_geometry()
                    && flow_shape(l.flow_view(), device_total(self.spec_netlist()@)),
                Err(e) => e == ApiError::EmptyNetlist,
            },
    {
        let mut hints = HintBuilder::new();
        f(&mut hints);
        let mut cfg = objective.apply_to_config(RunConfig::default());
        match hints.seed_value() {
            Some(seed) => {
                cfg.track_pitch_nm = cfg.track_pitch_nm + (seed % 8) as i64;
            },
            None => {},
        }
        solve_netlist(&self.netlist, cfg)
    }
}

} // verus!
