//! Device ports and the one port reference the builder accepts.
//!
//! A caller may name a terminal by a typed port (`MosfetPort::Gate`) or look
//! one up by string ([`port_ref_from_name`]); both give a [`PortRef`].
use vstd::prelude::*;

use crate::text::{chars_of, eq_ignore_case, equal_ignore_case, lower_seq};

verus! {

/// A MOSFET terminal.
#[derive(Debug, Clone, Copy, PartialEq, Eq, Structural)]
pub enum MosfetPort {
    Gate,
    Drain,
    Source,
    Bulk,
}

/// A two-terminal passive (resistor / capacitor / diode) terminal.
#[derive(Debug, Clone, Copy, PartialEq, Eq, Structural)]
pub enum PassivePort {
    Plus,
    Minus,
}

/// A bipolar-junction-transistor terminal.
#[derive(Debug, Clone, Copy, PartialEq, Eq, Structural)]
pub enum BjtPort {
    Collector,
    Base,
    Emitter,
}

/// The positional index of a MOSFET terminal.
pub open spec fn mosfet_idx(p: MosfetPort) -> u8 {
    match p {
        MosfetPort::Gate => 0,
        MosfetPort::Drain => 1,
        MosfetPort::Source => 2,
        MosfetPort::Bulk => 3,
    }
}

/// The canonical name of a MOSFET terminal.
pub open spec fn mosfet_name(p: MosfetPort) -> &'static str {
    match p {
        MosfetPort::Gate => "gate",
        MosfetPort::Drain => "drain",
        MosfetPort::Source => "source",
        MosfetPort::Bulk => "bulk",
    }
}

/// The positional index of a passive terminal.
pub open spec fn passive_idx(p: PassivePort) -> u8 {
    match p {
        PassivePort::Plus => 0,
        PassivePort::Minus => 1,
    }
}

/// The canonical name of a passive terminal.
pub open spec fn passive_name(p: PassivePort) -> &'static str {
    match p {
        PassivePort::Plus => "plus",
        PassivePort::Minus => "minus",
    }
}

/// The positional index of a BJT terminal.
pub open spec fn bjt_idx(p: BjtPort) -> u8 {
    match p {
        BjtPort::Collector => 0,
        BjtPort::Base => 1,
        BjtPort::Emitter => 2,
    }
}

/// The canonical name of a BJT terminal.
pub open spec fn bjt_name(p: BjtPort) -> &'static str {
    match p {
        BjtPort::Collector => "collector",
        BjtPort::Base => "base",
        BjtPort::Emitter => "emitter",
    }
}

impl MosfetPort {
    /// The terminal's positional index.
    pub fn idx(self) -> (i: u8)
        ensures
            i == mosfet_idx(self),
    {
        match self {
            MosfetPort::Gate => 0,
            MosfetPort::Drain => 1,
            MosfetPort::Source => 2,
            MosfetPort::Bulk => 3,
        }
    }

    /// The canonical terminal name.
    pub fn name(self) -> (s: &'static str)
        ensures
            s == mosfet_name(self),
    {
        match self {
            MosfetPort::Gate => "gate",
            MosfetPort::Drain => "drain",
            MosfetPort::Source => "source",
            MosfetPort::Bulk => "bulk",
        }
    }
}

impl PassivePort {
    /// The terminal's positional index.
    pub fn idx(self) -> (i: u8)
        ensures
            i == passive_idx(self),
    {
        match self {
            PassivePort::Plus => 0,
            PassivePort::Minus => 1,
        }
    }

    /// The canonical terminal name.
    pub fn name(self) -> (s: &'static str)
        ensures
            s == passive_name(self),
    {
        match self {
            PassivePort::Plus => "plus",
            PassivePort::Minus => "minus",
        }
    }
}

impl BjtPort {
    /// The terminal's positional index.
    pub fn idx(self) -> (i: u8)
        ensures
            i == bjt_idx(self),
    {
        match self {
            BjtPort::Collector => 0,
            BjtPort::Base => 1,
            BjtPort::Emitter => 2,
        }
    }

    /// The canonical terminal name.
    pub fn name(self) -> (s: &'static str)
        ensures
            s == bjt_name(self),
    {
        match self {
            BjtPort::Collector => "collector",
            BjtPort::Base => "base",
            BjtPort::Emitter => "emitter",
        }
    }
}

/// A reference to one device terminal: its index and canonical name.
#[derive(Debug, Clone, PartialEq, Eq)]
pub struct PortRef {
    idx: u8,
    name: &'static str,
}

impl PortRef {
    /// The terminal's positional index.
    pub closed spec fn spec_idx(&self) -> u8 {
        self.idx
    }

    /// The terminal's canonical name.
    pub closed spec fn spec_name(&self) -> &'static str {
        self.name
    }

    /// The terminal's positional index.
    pub fn idx(&self) -> (i: u8)
        ensures
            i == self.spec_idx(),
    {
        self.idx
    }

    /// The terminal's canonical name.
    pub fn name(&self) -> (s: &'static str)
        ensures
            s == self.spec_name(),
    {
        self.name
    }
}

impl From<MosfetPort> for PortRef {
    fn from(p: MosfetPort) -> (r: PortRef) {
        PortRef { idx: p.idx(), name: p.name() }
    }
}

impl vstd::std_specs::convert::FromSpecImpl<MosfetPort> for PortRef {
    open spec fn obeys_from_spec() -> bool {
        true
    }

    closed spec fn from_spec(p: MosfetPort) -> PortRef {
        PortRef { idx: mosfet_idx(p), name: mosfet_name(p) }
    }
}

impl From<PassivePort> for PortRef {
    fn from(p: PassivePort) -> (r: PortRef) {
        PortRef { idx: p.idx(), name: p.name() }
    }
}

impl vstd::std_specs::convert::FromSpecImpl<PassivePort> for PortRef {
    open spec fn obeys_from_spec() -> bool {
        true
    }

    closed spec fn from_spec(p: PassivePort) -> PortRef {
        PortRef { idx: passive_idx(p), name: passive_name(p) }
    }
}

impl From<BjtPort> for PortRef {
    fn from(p: BjtPort) -> (r: PortRef) {
        PortRef { idx: p.idx(), name: p.name() }
    }
}

impl vstd::std_specs::convert::FromSpecImpl<BjtPort> for PortRef {
    open spec fn obeys_from_spec() -> bool {
        true
    }

    closed spec fn from_spec(p: BjtPort) -> PortRef {
        PortRef { idx: bjt_idx(p), name: bjt_name(p) }
    }
}

/// The kind of a primitive device.
#[derive(Debug, Clone, Copy, PartialEq, Eq, Structural)]
pub enum DeviceKind {
    Nmos,
    Pmos,
    Resistor,
    Capacitor,
    Bjt,
    Diode,
    Generic,
}

/// The terminal (index, canonical name) a name denotes for a device kind,
/// ignoring ASCII case: MOSFET-like kinds take `gate`/`g`, `drain`/`d`,
/// `source`/`s`, `bulk`/`body`/`b`; passives take `plus`/`p`/`+`/`anode` and
/// `minus`/`m`/`-`/`cathode`; BJTs take `collector`/`c`, `base`/`b`,
/// `emitter`/`e`.
pub open spec fn spec_port_lookup(kind: DeviceKind, n: Seq<char>) -> Option<(u8, &'static str)> {
    match kind {
        DeviceKind::Nmos | DeviceKind::Pmos | DeviceKind::Generic => {
            if eq_ignore_case(n, "gate"@) || eq_ignore_case(n, "g"@) {
                Some((0u8, "gate"))
            } else if eq_ignore_case(n, "drain"@) || eq_ignore_case(n, "d"@) {
                Some((1u8, "drain"))
            } else if eq_ignore_case(n, "source"@) || eq_ignore_case(n, "s"@) {
                Some((2u8, "source"))
            } else if eq_ignore_case(n, "bulk"@) || eq_ignore_case(n, "body"@) || eq_ignore_case(
                n,
                "b"@,
            ) {
                Some((3u8, "bulk"))
            } else {
                None
            }
        },
        DeviceKind::Resistor | DeviceKind::Capacitor | DeviceKind::Diode => {
            if eq_ignore_case(n, "plus"@) || eq_ignore_case(n, "p"@) || eq_ignore_case(n, "+"@)
                || eq_ignore_case(n, "anode"@) {
                Some((0u8, "plus"))
            } else if eq_ignore_case(n, "minus"@) || eq_ignore_case(n, "m"@) || eq_ignore_case(
                n,
                "-"@,
            ) || eq_ignore_case(n, "cathode"@) {
                Some((1u8, "minus"))
            } else {
                None
            }
        },
        DeviceKind::Bjt => {
            if eq_ignore_case(n, "collector"@) || eq_ignore_case(n, "c"@) {
                Some((0u8, "collector"))
            } else if eq_ignore_case(n, "base"@) || eq_ignore_case(n, "b"@) {
                Some((1u8, "base"))
            } else if eq_ignore_case(n, "emitter"@) || eq_ignore_case(n, "e"@) {
                Some((2u8, "emitter"))
            } else {
                None
            }
        },
    }
}

/// Whether `n` equals `lit` up to ASCII case.
fn is_name(n: &Vec<char>, lit: &str) -> (b: bool)
    ensures
        b == eq_ignore_case(n@, lit@),
{
    equal_ignore_case(n, &chars_of(lit))
}

/// Look a [`PortRef`] up by device kind and terminal name, ignoring ASCII
/// case (`"body"` is an alias for a MOSFET bulk). `None` for an unknown name.
pub fn port_ref_from_name(kind: DeviceKind, name: &str) -> (r: Option<PortRef>)
    ensures
        match r {
            Some(p) => spec_port_lookup(kind, name@) == Some((p.spec_idx(), p.spec_name())),
            None => spec_port_lookup(kind, name@) is None,
        },
{
    let n = chars_of(name);
    match kind {
        DeviceKind::Nmos | DeviceKind::Pmos | DeviceKind::Generic => {
            if is_name(&n, "gate") || is_name(&n, "g") {
                Some(PortRef::from(MosfetPort::Gate))
            } else if is_name(&n, "drain") || is_name(&n, "d") {
                Some(PortRef::from(MosfetPort::Drain))
            } else if is_name(&n, "source") || is_name(&n, "s") {
                Some(PortRef::from(MosfetPort::Source))
            } else if is_name(&n, "bulk") || is_name(&n, "body") || is_name(&n, "b") {
                Some(PortRef::from(MosfetPort::Bulk))
            } else {
                None
            }
        },
        DeviceKind::Resistor | DeviceKind::Capacitor | DeviceKind::Diode => {
            if is_name(&n, "plus") || is_name(&n, "p") || is_name(&n, "+") || is_name(&n, "anode") {
                Some(PortRef::from(PassivePort::Plus))
            } else if is_name(&n, "minus") || is_name(&n, "m") || is_name(&n, "-") || is_name(
                &n,
                "cathode",
            ) {
                Some(PortRef::from(PassivePort::Minus))
            } else {
                None
            }
        },
        DeviceKind::Bjt => {
            if is_name(&n, "collector") || is_name(&n, "c") {
                Some(PortRef::from(BjtPort::Collector))
            } else if is_name(&n, "base") || is_name(&n, "b") {
                Some(PortRef::from(BjtPort::Base))
            } else if is_name(&n, "emitter") || is_name(&n, "e") {
                Some(PortRef::from(BjtPort::Emitter))
            } else {
                None
            }
        },
    }
}

/// The canonical port names of a device kind, in index order.
pub open spec fn spec_port_names(kind: DeviceKind) -> Seq<&'static str> {
    match kind {
        DeviceKind::Nmos | DeviceKind::Pmos | DeviceKind::Generic => seq![
            "gate",
            "drain",
            "source",
            "bulk",
        ],
        DeviceKind::Resistor | DeviceKind::Capacitor | DeviceKind::Diode => seq!["plus", "minus"],
        DeviceKind::Bjt => seq!["collector", "base", "emitter"],
    }
}

/// The legal canonical port names for a device kind, in index order.
pub fn valid_port_names(kind: DeviceKind) -> (v: Vec<&'static str>)
    ensures
        v@ == spec_port_names(kind),
{
    let v = match kind {
        DeviceKind::Nmos | DeviceKind::Pmos | DeviceKind::Generic => vec![
            "gate",
            "drain",
            "source",
            "bulk",
        ],
        DeviceKind::Resistor | DeviceKind::Capacitor | DeviceKind::Diode => vec!["plus", "minus"],
        DeviceKind::Bjt => vec!["collector", "base", "emitter"],
    };
    proof {
        assert(v@ =~= spec_port_names(kind));
    }
    v
}

proof fn lemma_len_differs(a: Seq<char>, b: Seq<char>)
    requires
        a.len() != b.len(),
    ensures
        !eq_ignore_case(a, b),
{
    assert(lower_seq(a).len() != lower_seq(b).len());
}

/// Every canonical port name of a kind resolves, by name, to the port at its
/// own index and with that very name.
pub proof fn lemma_valid_names_resolve(kind: DeviceKind, i: int)
    requires
        0 <= i < spec_port_names(kind).len(),
    ensures
        spec_port_lookup(kind, spec_port_names(kind)[i]@) == Some(
            (i as u8, spec_port_names(kind)[i]),
        ),
{
    reveal_strlit("gate");
    reveal_strlit("drain");
    reveal_strlit("source");
    reveal_strlit("bulk");
    reveal_strlit("plus");
    reveal_strlit("minus");
    reveal_strlit("collector");
    reveal_strlit("base");
    reveal_strlit("emitter");
    reveal_strlit("g");
    reveal_strlit("d");
    reveal_strlit("s");
    reveal_strlit("body");
    reveal_strlit("b");
    reveal_strlit("p");
    reveal_strlit("+");
    reveal_strlit("anode");
    reveal_strlit("m");
    reveal_strlit("-");
    reveal_strlit("cathode");
    reveal_strlit("c");
    reveal_strlit("e");
    let n = spec_port_names(kind)[i]@;
    let lit = spec_port_names(kind)[i];
    assert(eq_ignore_case(n, n));
    assert(lower_seq("bulk"@)[0] != lower_seq("gate"@)[0]);
    assert(lower_seq("minus"@)[0] != lower_seq("anode"@)[0]);
    assert(!eq_ignore_case("bulk"@, "gate"@));
    assert(!eq_ignore_case("minus"@, "anode"@));
    assert(lower_seq("drain"@).len() == 5);
    match kind {
        DeviceKind::Nmos | DeviceKind::Pmos | DeviceKind::Generic => {
            if i == 0 {
                assert(lit == "gate");
            } else if i == 1 {
                assert(lit == "drain");
                lemma_len_differs(n, "gate"@);
                lemma_len_differs(n, "g"@);
            } else if i == 2 {
                assert(lit == "source");
                lemma_len_differs(n, "gate"@);
                lemma_len_differs(n, "g"@);
                lemma_len_differs(n, "drain"@);
                lemma_len_differs(n, "d"@);
            } else {
                assert(lit == "bulk");
                lemma_len_differs(n, "g"@);
                lemma_len_differs(n, "drain"@);
                lemma_len_differs(n, "d"@);
                lemma_len_differs(n, "source"@);
                lemma_len_differs(n, "s"@);
            }
        },
        DeviceKind::Resistor | DeviceKind::Capacitor | DeviceKind::Diode => {
            if i == 0 {
                assert(lit == "plus");
            } else {
                assert(lit == "minus");
                lemma_len_differs(n, "plus"@);
                lemma_len_differs(n, "p"@);
                lemma_len_differs(n, "+"@);
            }
        },
        DeviceKind::Bjt => {
            if i == 0 {
                assert(lit == "collector");
            } else if i == 1 {
                assert(lit == "base");
                lemma_len_differs(n, "collector"@);
                lemma_len_differs(n, "c"@);
            } else {
                assert(lit == "emitter");
                lemma_len_differs(n, "collector"@);
                lemma_len_differs(n, "c"@);
                lemma_len_differs(n, "base"@);
                lemma_len_differs(n, "b"@);
            }
        },
    }
}

} // verus!
