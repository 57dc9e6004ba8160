//! A compact SPICE netlist reader and writer.
//!
//! The reader handles full-line comments (`*` first after left-trim), inline
//! comments (from `;` or `$`), `+` continuation lines, blank lines,
//! `.subckt NAME ports... [k=v ...]` / `.ends` blocks, control directives,
//! `.end` among them (kept verbatim, with reading going on after them), and
//! device cards keyed by their first letter. Each function here
//! is specified over character sequences: [`spec_parse`] is the meaning of
//! [`SpiceNetlist::parse`], [`spice_text`] that of [`SpiceNetlist::to_spice`].
use vstd::prelude::*;

use crate::parsed::{lemma_parsed_writable, lemma_promoted_writable};
use crate::roundtrip::{end_line, lemma_parse_spice_text, lemma_round_trip_counts, reparsed_netlist, writable_netlist};
use crate::text::{
    back_ws, digits_u64, nat_digits, chars_of, copy_range, eq_ignore_case, equal_ignore_case, has_prefix, lines, lower,
    lower_seq, skip_ws, split_lines, split_tokens, starts_with_ignore_case, string_of, to_upper,
    tokens, trim, trim_end, trim_start, trimmed, upper,
};

verus! {

/// One device card: its name, ordered node connections, optional model or
/// subckt-reference name, and `key=value` parameters in source order.
#[derive(Debug, PartialEq, Eq, Default)]
pub struct Device {
    /// The full device name including its leading letter, e.g. `M1`, `Rload`.
    pub name: String,
    /// The leading letter, upper-cased (`'\0'` if `name` is empty).
    pub kind: char,
    /// Ordered node connections (terminals).
    pub nodes: Vec<String>,
    /// Model name (for `M`/`Q`/`D`/`J`) or referenced subckt (for `X`), if any.
    pub model: Option<String>,
    /// Parsed `key=value` parameters, in source order.
    pub params: Vec<(String, String)>,
}

/// A device card as character sequences.
pub struct DeviceModel {
    pub name: Seq<char>,
    pub kind: char,
    pub nodes: Seq<Seq<char>>,
    pub model: Option<Seq<char>>,
    pub params: Seq<(Seq<char>, Seq<char>)>,
}

/// The character sequences of a list of strings.
pub open spec fn strs(v: Seq<String>) -> Seq<Seq<char>> {
    v.map_values(|s: String| s@)
}

/// The character sequences of an optional string.
pub open spec fn opt_str(o: Option<String>) -> Option<Seq<char>> {
    match o {
        Some(s) => Some(s@),
        None => None,
    }
}

/// The character sequences of a list of `(key, value)` string pairs.
pub open spec fn str_pairs(v: Seq<(String, String)>) -> Seq<(Seq<char>, Seq<char>)> {
    v.map_values(|p: (String, String)| (p.0@, p.1@))
}

proof fn lemma_strs_push(a: Seq<String>, x: String)
    ensures
        strs(a.push(x)) == strs(a).push(x@),
{
    assert(strs(a.push(x)) =~= strs(a).push(x@));
}

proof fn lemma_pairs_push(a: Seq<(String, String)>, x: (String, String))
    ensures
        str_pairs(a.push(x)) == str_pairs(a).push((x.0@, x.1@)),
{
    assert(str_pairs(a.push(x)) =~= str_pairs(a).push((x.0@, x.1@)));
}

impl View for Device {
    type V = DeviceModel;

    open spec fn view(&self) -> DeviceModel {
        DeviceModel {
            name: self.name@,
            kind: self.kind,
            nodes: strs(self.nodes@),
            model: opt_str(self.model),
            params: str_pairs(self.params@),
        }
    }
}

/// A copy of a list of strings.
fn clone_strings(v: &Vec<String>) -> (r: Vec<String>)
    ensures
        strs(r@) == strs(v@),
{
    let mut r: Vec<String> = Vec::new();
    let mut i: usize = 0;
    while i < v.len()
        invariant
            i <= v@.len(),
            strs(r@) == strs(v@.take(i as int)),
        decreases v@.len() - i,
    {
        let ghost before = r@;
        r.push(v[i].clone());
        proof {
            lemma_strs_push(before, v@[i as int]);
            lemma_strs_push(v@.take(i as int), v@[i as int]);
            assert(v@.take(i + 1) =~= v@.take(i as int).push(v@[i as int]));
        }
        i = i + 1;
    }
    proof {
        assert(v@.take(v@.len() as int) =~= v@);
    }
    r
}

/// A copy of a list of string pairs.
fn clone_pairs(v: &Vec<(String, String)>) -> (r: Vec<(String, String)>)
    ensures
        str_pairs(r@) == str_pairs(v@),
{
    let mut r: Vec<(String, String)> = Vec::new();
    let mut i: usize = 0;
    while i < v.len()
        invariant
            i <= v@.len(),
            str_pairs(r@) == str_pairs(v@.take(i as int)),
        decreases v@.len() - i,
    {
        let ghost before = r@;
        let item = (v[i].0.clone(), v[i].1.clone());
        r.push(item);
        proof {
            lemma_pairs_push(before, item);
            lemma_pairs_push(v@.take(i as int), v@[i as int]);
            assert(v@.take(i + 1) =~= v@.take(i as int).push(v@[i as int]));
        }
        i = i + 1;
    }
    proof {
        assert(v@.take(v@.len() as int) =~= v@);
    }
    r
}

impl Clone for Device {
    fn clone(&self) -> (r: Device)
        ensures
            r@ == self@,
    {
        let model = match &self.model {
            Some(m) => Some(m.clone()),
            None => None,
        };
        Device {
            name: self.name.clone(),
            kind: self.kind,
            nodes: clone_strings(&self.nodes),
            model,
            params: clone_pairs(&self.params),
        }
    }
}

/// The index of the first `=` at or after `i` in `t`, or its length.
pub open spec fn eq_from(t: Seq<char>, i: int) -> int
    decreases t.len() - i,
{
    if i < 0 || i >= t.len() || t[i] == '=' {
        i
    } else {
        eq_from(t, i + 1)
    }
}

/// The index of the first `=` in `t`, or its length.
pub open spec fn eq_index(t: Seq<char>) -> int {
    eq_from(t, 0)
}

/// Token `t` is a `key=value` parameter: it holds a `=` after a non-empty key.
/// (Tokens hold no white space, so the key needs no trimming.)
pub open spec fn is_kv(t: Seq<char>) -> bool {
    0 < eq_index(t) < t.len()
}

/// The key and the value of a `key=value` token.
pub open spec fn kv_pair(t: Seq<char>) -> (Seq<char>, Seq<char>) {
    (t.take(eq_index(t)), t.skip(eq_index(t) + 1))
}

/// The `key=value` tokens of `ts`, as pairs, in order.
pub open spec fn kv_params(ts: Seq<Seq<char>>) -> Seq<(Seq<char>, Seq<char>)>
    decreases ts.len(),
{
    if ts.len() == 0 {
        seq![]
    } else if is_kv(ts.last()) {
        kv_params(ts.drop_last()).push(kv_pair(ts.last()))
    } else {
        kv_params(ts.drop_last())
    }
}

/// The tokens of `ts` that are not `key=value` parameters, in order.
pub open spec fn positionals(ts: Seq<Seq<char>>) -> Seq<Seq<char>>
    decreases ts.len(),
{
    if ts.len() == 0 {
        seq![]
    } else if is_kv(ts.last()) {
        positionals(ts.drop_last())
    } else {
        positionals(ts.drop_last()).push(ts.last())
    }
}

/// How many leading tokens of a card of this kind are nodes, when fixed.
pub open spec fn fixed_nodes(kind: char) -> Option<int> {
    if kind == 'M' {
        Some(4)
    } else if kind == 'Q' || kind == 'J' {
        Some(3)
    } else if kind == 'D' || kind == 'R' || kind == 'C' || kind == 'L' || kind == 'V' || kind
        == 'I' {
        Some(2)
    } else {
        None
    }
}

/// Whether a card of this kind names a model (or, for `X`, a subckt).
pub open spec fn takes_model(kind: char) -> bool {
    kind == 'M' || kind == 'Q' || kind == 'D' || kind == 'J' || kind == 'X'
}

/// The end of the leading run of non-`key=value` tokens from `i`, stopping at `n`.
pub open spec fn lead_end(ts: Seq<Seq<char>>, i: int, n: int) -> int
    decreases n - i,
{
    if i < n && 0 <= i < ts.len() && !is_kv(ts[i]) {
        lead_end(ts, i + 1, n)
    } else {
        i
    }
}

/// The index of the first `key=value` token at or after `i`, or the length.
pub open spec fn first_kv(ts: Seq<Seq<char>>, i: int) -> int
    decreases ts.len() - i,
{
    if 0 <= i < ts.len() && !is_kv(ts[i]) {
        first_kv(ts, i + 1)
    } else {
        i
    }
}

/// A device with the given name and kind and nothing else.
pub open spec fn bare_device(name: Seq<char>, kind: char) -> DeviceModel {
    DeviceModel { name, kind, nodes: seq![], model: None, params: seq![] }
}

/// The upper-cased first letter of `name`, or `'\0'` when it is empty.
pub open spec fn kind_of(name: Seq<char>) -> char {
    if name.len() > 0 {
        upper(name[0])
    } else {
        '\0'
    }
}

/// The card layout for kinds with a fixed node count `n`: up to `n` leading
/// positionals are nodes (a `Q` may take a fourth, substrate node when another
/// positional follows it), then the model if the kind takes one and a
/// positional is left; of the remaining tokens, parameters are parameters and
/// positionals are further nodes.
pub open spec fn fixed_card(name: Seq<char>, kind: char, rest: Seq<Seq<char>>, n: int) -> DeviceModel {
    let i0 = lead_end(rest, 0, n);
    let sub = kind == 'Q' && i0 < rest.len() && !is_kv(rest[i0]) && i0 + 1 < rest.len() && !is_kv(
        rest[i0 + 1],
    );
    let i1 = if sub {
        i0 + 1
    } else {
        i0
    };
    let with_model = takes_model(kind) && i1 < rest.len() && !is_kv(rest[i1]);
    let i2 = if with_model {
        i1 + 1
    } else {
        i1
    };
    DeviceModel {
        name,
        kind,
        nodes: rest.take(i1) + positionals(rest.skip(i2)),
        model: if with_model {
            Some(rest[i1])
        } else {
            None
        },
        params: kv_params(rest.skip(i2)),
    }
}

/// The card layout for the other kinds: the leading positionals are nodes,
/// except that for `X` the last of them names the subckt; the tokens from the
/// first parameter on are parameters, or further nodes when positional.
pub open spec fn free_card(name: Seq<char>, kind: char, rest: Seq<Seq<char>>) -> DeviceModel {
    let k = first_kv(rest, 0);
    let with_model = takes_model(kind) && k > 0;
    DeviceModel {
        name,
        kind,
        nodes: if with_model {
            rest.take(k - 1)
        } else {
            rest.take(k)
        } + positionals(rest.skip(k)),
        model: if with_model {
            Some(rest[k - 1])
        } else {
            None
        },
        params: kv_params(rest.skip(k)),
    }
}

/// The device a card line describes.
pub open spec fn spec_parse_device(line: Seq<char>) -> DeviceModel {
    let toks = tokens(line);
    if toks.len() == 0 {
        bare_device(seq![], '\0')
    } else {
        let name = toks[0];
        let kind = kind_of(name);
        let rest = toks.skip(1);
        match fixed_nodes(kind) {
            Some(n) => fixed_card(name, kind, rest, n),
            None => free_card(name, kind, rest),
        }
    }
}

proof fn lemma_eq_from(t: Seq<char>, i: int)
    requires
        0 <= i <= t.len(),
    ensures
        i <= eq_from(t, i) <= t.len(),
    decreases t.len() - i,
{
    if i < t.len() && t[i] != '=' {
        lemma_eq_from(t, i + 1);
    }
}

proof fn lemma_eq_from_none(t: Seq<char>, i: int)
    requires
        0 <= i <= t.len(),
        forall|k: int| i <= k < t.len() ==> #[trigger] t[k] != '=',
    ensures
        eq_from(t, i) == t.len(),
    decreases t.len() - i,
{
    if i < t.len() {
        lemma_eq_from_none(t, i + 1);
    }
}

/// A token with no `=` is not a `key=value` parameter.
proof fn lemma_plain_not_kv(t: Seq<char>)
    requires
        forall|j: int| 0 <= j < t.len() ==> t[j] != '=',
    ensures
        !is_kv(t),
{
    lemma_eq_from_none(t, 0);
}

proof fn lemma_first_kv_none(ts: Seq<Seq<char>>, i: int)
    requires
        0 <= i <= ts.len(),
        forall|k: int| 0 <= k < ts.len() ==> !is_kv(#[trigger] ts[k]),
    ensures
        first_kv(ts, i) == ts.len(),
    decreases ts.len() - i,
{
    if i < ts.len() {
        lemma_first_kv_none(ts, i + 1);
    }
}

/// The model of a device card is the positional token after its fixed nodes.
/// For a card of a name and positional tokens only (none holds `=`): an `M`
/// card of four nodes and a model, a `Q` or `J` card of three nodes and a
/// model, and a `D` card of two nodes and a model have those nodes and that
/// model; an `X` card has every token but the last as nodes and the last as
/// its subckt; an `R` card, which names no model, has every token as a node.
pub proof fn lemma_card_models(line: Seq<char>)
    ensures
        ({
            let ts = tokens(line);
            let d = spec_parse_device(line);
            let plain = forall|i: int, j: int|
                1 <= i < ts.len() && 0 <= j < ts[i].len() ==> #[trigger] ts[i][j] != '=';
            let lead = if ts.len() > 0 && ts[0].len() > 0 {
                ts[0][0]
            } else {
                '\0'
            };
            &&& plain && ts.len() == 4 && lead == 'D' ==> d.nodes == ts.subrange(1, 3) && d.model == Some(
                ts[3],
            )
            &&& plain && ts.len() == 6 && lead == 'M' ==> d.nodes == ts.subrange(1, 5) && d.model == Some(
                ts[5],
            )
            &&& plain && ts.len() == 5 && (lead == 'Q' || lead == 'J') ==> d.nodes == ts.subrange(1, 4)
                && d.model == Some(ts[4])
            &&& plain && ts.len() >= 2 && lead == 'X' ==> d.nodes == ts.subrange(1, ts.len() - 1)
                && d.model == Some(ts[ts.len() - 1])
            &&& plain && ts.len() == 4 && lead == 'R' ==> d.nodes == ts.subrange(1, 4) && d.model
                is None
        }),
{
    let ts = tokens(line);
    let plain = forall|i: int, j: int|
        1 <= i < ts.len() && 0 <= j < ts[i].len() ==> #[trigger] ts[i][j] != '=';
    if plain && ts.len() >= 2 && ts[0].len() > 0 {
        let rest = ts.skip(1);
        assert forall|k: int| 0 <= k < rest.len() implies !is_kv(#[trigger] rest[k]) by {
            assert(rest[k] == ts[k + 1]);
            assert forall|j: int| 0 <= j < rest[k].len() implies rest[k][j] != '=' by {
                assert(ts[k + 1][j] != '=');
            }
            lemma_plain_not_kv(rest[k]);
        }
        let name = ts[0];
        let c = name[0];
        assert(kind_of(name) == upper(c));
        let empty = Seq::<Seq<char>>::empty();
        assert(positionals(empty) == empty);
        assert(kv_params(empty) == Seq::<(Seq<char>, Seq<char>)>::empty());
        if c == 'D' && ts.len() == 4 {
            reveal_with_fuel(lead_end, 4);
            assert(lead_end(rest, 0, 2) == 2);
            assert(rest.skip(3) =~= empty);
            assert(rest.take(2) + empty =~= ts.subrange(1, 3));
        } else if c == 'M' && ts.len() == 6 {
            reveal_with_fuel(lead_end, 6);
            assert(lead_end(rest, 0, 4) == 4);
            assert(rest.skip(5) =~= empty);
            assert(rest.take(4) + empty =~= ts.subrange(1, 5));
        } else if (c == 'Q' || c == 'J') && ts.len() == 5 {
            reveal_with_fuel(lead_end, 5);
            assert(lead_end(rest, 0, 3) == 3);
            assert(rest.skip(4) =~= empty);
            assert(rest.take(3) + empty =~= ts.subrange(1, 4));
        } else if c == 'X' {
            lemma_first_kv_none(rest, 0);
            let k = rest.len() as int;
            assert(rest.skip(k) =~= empty);
            assert(rest.take(k - 1) + empty =~= ts.subrange(1, ts.len() - 1));
            assert(rest[k - 1] == ts[ts.len() - 1]);
        } else if c == 'R' && ts.len() == 4 {
            reveal_with_fuel(lead_end, 4);
            assert(lead_end(rest, 0, 2) == 2);
            let tail = rest.skip(2);
            assert(tail.len() == 1);
            assert(!is_kv(tail[0]));
            assert(tail.drop_last() =~= empty);
            assert(positionals(tail) == positionals(tail.drop_last()).push(tail.last()));
            assert(positionals(tail) =~= seq![rest[2]]);
            assert(kv_params(tail) == kv_params(tail.drop_last()));
            assert(rest.take(2) + seq![rest[2]] =~= ts.subrange(1, 4));
        }
    }
}

/// The index of the first `=` in `t`, or its length.
fn find_eq(t: &Vec<char>) -> (r: usize)
    ensures
        r == eq_index(t@),
        r <= t@.len(),
{
    let mut i: usize = 0;
    while i < t.len() && t[i] != '='
        invariant
            i <= t@.len(),
            eq_from(t@, i as int) == eq_index(t@),
        decreases t@.len() - i,
    {
        i = i + 1;
    }
    i
}

/// Whether token `t` is a `key=value` parameter.
fn token_is_kv(t: &Vec<char>) -> (b: bool)
    ensures
        b == is_kv(t@),
{
    let e = find_eq(t);
    0 < e && e < t.len()
}

/// The key and the value of a `key=value` token.
fn split_kv(t: &Vec<char>) -> (r: (String, String))
    requires
        is_kv(t@),
    ensures
        (r.0@, r.1@) == kv_pair(t@),
{
    let e = find_eq(t);
    let n = t.len();
    assert(e < n);
    let key = copy_range(t, 0, e);
    let val = copy_range(t, e + 1, n);
    proof {
        assert(key@ =~= t@.take(e as int));
        assert(val@ =~= t@.skip(e + 1));
    }
    (string_of(&key), string_of(&val))
}

/// The character sequences of a list of character vectors.
pub open spec fn vviews(v: Seq<Vec<char>>) -> Seq<Seq<char>> {
    v.map_values(|t: Vec<char>| t@)
}

/// Append tokens `lo..hi` of `toks` to `out` as strings.
fn push_tokens(toks: &Vec<Vec<char>>, lo: usize, hi: usize, out: &mut Vec<String>)
    requires
        lo <= hi <= toks@.len(),
    ensures
        strs(final(out)@) == strs(old(out)@) + vviews(toks@).subrange(lo as int, hi as int),
{
    let ghost start = strs(out@);
    let mut i = lo;
    while i < hi
        invariant
            lo <= i <= hi <= toks@.len(),
            strs(out@) == start + vviews(toks@).subrange(lo as int, i as int),
        decreases hi - i,
    {
        let ghost before = out@;
        let t = string_of(&toks[i]);
        out.push(t);
        proof {
            lemma_strs_push(before, t);
            assert(vviews(toks@).subrange(lo as int, i + 1) =~= vviews(toks@).subrange(
                lo as int,
                i as int,
            ).push(toks@[i as int]@));
        }
        i = i + 1;
    }
}

/// Sort tokens `from..` of `toks` into parameters and further positional nodes.
fn split_tail(
    toks: &Vec<Vec<char>>,
    from: usize,
    nodes: &mut Vec<String>,
    params: &mut Vec<(String, String)>,
)
    requires
        from <= toks@.len(),
    ensures
        strs(final(nodes)@) == strs(old(nodes)@) + positionals(vviews(toks@).skip(from as int)),
        str_pairs(final(params)@) == str_pairs(old(params)@) + kv_params(
            vviews(toks@).skip(from as int),
        ),
{
    let ghost ts = vviews(toks@);
    let ghost n0 = strs(nodes@);
    let ghost p0 = str_pairs(params@);
    let mut j = from;
    while j < toks.len()
        invariant
            from <= j <= toks@.len(),
            ts == vviews(toks@),
            strs(nodes@) == n0 + positionals(ts.subrange(from as int, j as int)),
            str_pairs(params@) == p0 + kv_params(ts.subrange(from as int, j as int)),
        decreases toks@.len() - j,
    {
        let ghost seg = ts.subrange(from as int, j + 1);
        proof {
            assert(seg.drop_last() =~= ts.subrange(from as int, j as int));
            assert(seg.last() == toks@[j as int]@);
        }
        if token_is_kv(&toks[j]) {
            let ghost before = params@;
            let kv = split_kv(&toks[j]);
            params.push(kv);
            proof {
                lemma_pairs_push(before, kv);
                assert(str_pairs(params@) =~= p0 + kv_params(seg));
                assert(strs(nodes@) =~= n0 + positionals(seg));
            }
        } else {
            let ghost before = nodes@;
            let t = string_of(&toks[j]);
            nodes.push(t);
            proof {
                lemma_strs_push(before, t);
                assert(strs(nodes@) =~= n0 + positionals(seg));
                assert(str_pairs(params@) =~= p0 + kv_params(seg));
            }
        }
        j = j + 1;
    }
    proof {
        assert(ts.subrange(from as int, toks@.len() as int) =~= ts.skip(from as int));
    }
}

/// The number of fixed leading nodes for a card kind, if any.
fn fixed_node_count(kind: char) -> (r: Option<usize>)
    ensures
        match fixed_nodes(kind) {
            Some(n) => r == Some(n as usize),
            None => r is None,
        },
{
    if kind == 'M' {
        Some(4)
    } else if kind == 'Q' || kind == 'J' {
        Some(3)
    } else if kind == 'D' || kind == 'R' || kind == 'C' || kind == 'L' || kind == 'V' || kind
        == 'I' {
        Some(2)
    } else {
        None
    }
}

/// Parse a device card into a [`Device`].
///
/// The first token is the device name and its upper-cased first letter the
/// kind; the kind fixes how many leading tokens are nodes and whether a model
/// (or subckt) name follows. Remaining tokens are parameters when they hold
/// `key=value`, further nodes otherwise.
fn parse_device(line: &Vec<char>) -> (d: Device)
    ensures
        d@ == spec_parse_device(line@),
{
    let toks = split_tokens(line);
    let ghost ts = vviews(toks@);
    proof {
        assert(ts == tokens(line@));
    }
    if toks.len() == 0 {
        let d = Device {
            name: String::new(),
            kind: '\0',
            nodes: Vec::new(),
            model: None,
            params: Vec::new(),
        };
        proof {
            assert(d@.nodes =~= seq![]);
            assert(d@.params =~= seq![]);
            assert(d@.name =~= seq![]);
        }
        return d;
    }
    let name = string_of(&toks[0]);
    let kind = if toks[0].len() > 0 {
        to_upper(toks[0][0])
    } else {
        '\0'
    };
    let ghost rest = ts.skip(1);
    let rl = toks.len() - 1;
    let mut nodes: Vec<String> = Vec::new();
    let mut params: Vec<(String, String)> = Vec::new();
    let mut model: Option<String> = None;
    proof {
        assert(kind == kind_of(ts[0]));
        assert forall|k: int| 0 <= k < rl implies #[trigger] rest[k] == toks@[k + 1]@ by {}
    }
    match fixed_node_count(kind) {
        Some(n) => {
            let mut i: usize = 0;
            while i < rl && i < n && !token_is_kv(&toks[i + 1])
                invariant
                    rl == rest.len(),
                    rl + 1 == toks@.len(),
                    ts == vviews(toks@),
                    rest == ts.skip(1),
                    i <= rl,
                    i <= n,
                    lead_end(rest, i as int, n as int) == lead_end(rest, 0, n as int),
                    strs(nodes@) == rest.take(i as int),
                decreases rl - i,
            {
                let ghost before = nodes@;
                let t = string_of(&toks[i + 1]);
                nodes.push(t);
                proof {
                    lemma_strs_push(before, t);
                    assert(rest.take(i + 1) =~= rest.take(i as int).push(rest[i as int]));
                }
                i = i + 1;
            }
            let ghost i0 = i as int;
            if kind == 'Q' && i < rl && !token_is_kv(&toks[i + 1]) && i + 1 < rl && !token_is_kv(
                &toks[i + 2],
            ) {
                let ghost before = nodes@;
                let t = string_of(&toks[i + 1]);
                nodes.push(t);
                proof {
                    lemma_strs_push(before, t);
                    assert(rest.take(i + 1) =~= rest.take(i as int).push(rest[i as int]));
                }
                i = i + 1;
            }
            let ghost i1 = i as int;
            if kind == 'M' || kind == 'Q' || kind == 'D' || kind == 'J' || kind == 'X' {
                if i < rl && !token_is_kv(&toks[i + 1]) {
                    model = Some(string_of(&toks[i + 1]));
                    i = i + 1;
                }
            }
            split_tail(&toks, i + 1, &mut nodes, &mut params);
            proof {
                assert(ts.skip(i + 1) =~= rest.skip(i as int));
                let d = fixed_card(ts[0], kind, rest, n as int);
                assert(d.nodes == rest.take(i1) + positionals(rest.skip(i as int)));
            }
        },
        None => {
            let mut k: usize = 0;
            while k < rl && !token_is_kv(&toks[k + 1])
                invariant
                    rl == rest.len(),
                    rl + 1 == toks@.len(),
                    ts == vviews(toks@),
                    rest == ts.skip(1),
                    k <= rl,
                    first_kv(rest, k as int) == first_kv(rest, 0),
                decreases rl - k,
            {
                k = k + 1;
            }
            if (kind == 'M' || kind == 'Q' || kind == 'D' || kind == 'J' || kind == 'X') && k > 0 {
                push_tokens(&toks, 1, k, &mut nodes);
                model = Some(string_of(&toks[k]));
                proof {
                    assert(vviews(toks@).subrange(1, k as int) =~= rest.take(k - 1));
                }
            } else {
                push_tokens(&toks, 1, k + 1, &mut nodes);
                proof {
                    assert(vviews(toks@).subrange(1, k + 1) =~= rest.take(k as int));
                }
            }
            split_tail(&toks, k + 1, &mut nodes, &mut params);
            proof {
                assert(ts.skip(k + 1) =~= rest.skip(k as int));
            }
        },
    }
    Device { name, kind, nodes, model, params }
}

// ---------------------------------------------------------------------------
// Subckts, netlists and errors
// ---------------------------------------------------------------------------

/// A subcircuit definition: its name, declared ports, header parameters, and
/// the devices in its body.
#[derive(Debug, PartialEq, Eq, Default)]
pub struct Subckt {
    /// The subckt name from `.subckt NAME ...`.
    pub name: String,
    /// Declared port nodes, in order.
    pub ports: Vec<String>,
    /// Header `key=value` parameters declared on the `.subckt` line.
    pub params: Vec<(String, String)>,
    /// Devices declared between `.subckt` and the matching `.ends`.
    pub body: Vec<Device>,
}

/// A subckt definition as character sequences.
pub struct SubcktModel {
    pub name: Seq<char>,
    pub ports: Seq<Seq<char>>,
    pub params: Seq<(Seq<char>, Seq<char>)>,
    pub body: Seq<DeviceModel>,
}

/// The models of a list of devices.
pub open spec fn devs(v: Seq<Device>) -> Seq<DeviceModel> {
    v.map_values(|d: Device| d@)
}

impl View for Subckt {
    type V = SubcktModel;

    open spec fn view(&self) -> SubcktModel {
        SubcktModel {
            name: self.name@,
            ports: strs(self.ports@),
            params: str_pairs(self.params@),
            body: devs(self.body@),
        }
    }
}

/// The models of a list of subckt definitions.
pub open spec fn subs(v: Seq<Subckt>) -> Seq<SubcktModel> {
    v.map_values(|d: Subckt| d@)
}

/// A parsed netlist: the top-level devices, every `.subckt` definition in
/// source order (one per name), and the control directives kept verbatim.
#[derive(Debug)]
pub struct SpiceNetlist {
    top: Vec<Device>,
    defs: Vec<Subckt>,
    subckt_order: Vec<String>,
    directives: Vec<String>,
}

/// A netlist as character sequences.
pub struct NetlistModel {
    pub top: Seq<DeviceModel>,
    pub defs: Seq<SubcktModel>,
    pub directives: Seq<Seq<char>>,
}

impl View for SpiceNetlist {
    type V = NetlistModel;

    closed spec fn view(&self) -> NetlistModel {
        NetlistModel { top: devs(self.top@), defs: subs(self.defs@), directives: strs(self.directives@) }
    }
}

/// The netlist with nothing in it.
pub open spec fn empty_netlist() -> NetlistModel {
    NetlistModel { top: seq![], defs: seq![], directives: seq![] }
}

/// The names of the definitions, in order.
pub open spec fn def_names(defs: Seq<SubcktModel>) -> Seq<Seq<char>> {
    defs.map_values(|d: SubcktModel| d.name)
}

/// No two definitions share a name.
pub open spec fn names_distinct(defs: Seq<SubcktModel>) -> bool {
    forall|i: int, j: int| 0 <= i < j < defs.len() ==> defs[i].name != defs[j].name
}

impl SpiceNetlist {
    /// The list of subckt names follows the definitions, whose names differ.
    pub closed spec fn wf(&self) -> bool {
        &&& strs(self.subckt_order@) == def_names(subs(self.defs@))
        &&& names_distinct(subs(self.defs@))
    }
}

/// Errors the parser can raise.
#[derive(Debug, Clone, PartialEq, Eq)]
pub enum SpiceError {
    /// A `.subckt` directive had no name token.
    MissingSubcktName {
        /// 1-based logical-line number where the error occurred.
        line: usize,
    },
    /// A `.ends` was seen with no open `.subckt`.
    UnexpectedEnds {
        /// 1-based logical-line number where the error occurred.
        line: usize,
    },
    /// End of input reached while a `.subckt` was still open.
    UnterminatedSubckt {
        /// The name of the subckt left open.
        name: String,
    },
    /// A continuation line (`+ ...`) appeared before any logical line.
    DanglingContinuation {
        /// 1-based physical-line number of the stray continuation.
        line: usize,
    },
}

/// A parse error with its name as characters.
pub enum SpiceErrorModel {
    MissingSubcktName(int),
    UnexpectedEnds(int),
    UnterminatedSubckt(Seq<char>),
    DanglingContinuation(int),
}

impl View for SpiceError {
    type V = SpiceErrorModel;

    open spec fn view(&self) -> SpiceErrorModel {
        match self {
            SpiceError::MissingSubcktName { line } => SpiceErrorModel::MissingSubcktName(*line as int),
            SpiceError::UnexpectedEnds { line } => SpiceErrorModel::UnexpectedEnds(*line as int),
            SpiceError::UnterminatedSubckt { name } => SpiceErrorModel::UnterminatedSubckt(name@),
            SpiceError::DanglingContinuation { line } => SpiceErrorModel::DanglingContinuation(
                *line as int,
            ),
        }
    }
}

// ---------------------------------------------------------------------------
// Lexing: comments and continuation lines
// ---------------------------------------------------------------------------

/// The index of the first `;` or `$` at or after `i`, or the length of `s`.
pub open spec fn comment_cut(s: Seq<char>, i: int) -> int
    decreases s.len() - i,
{
    if i < 0 || i >= s.len() || s[i] == ';' || s[i] == '$' {
        i
    } else {
        comment_cut(s, i + 1)
    }
}

/// A physical line without its comment: empty when its first non-blank
/// character is `*`; otherwise cut at the first `;` or `$`, with trailing
/// white space removed.
pub open spec fn strip_comment(raw: Seq<char>) -> Seq<char> {
    let t = trim_start(raw);
    if t.len() > 0 && t[0] == '*' {
        seq![]
    } else {
        trim_end(raw.take(comment_cut(raw, 0)))
    }
}

/// The logical lines built from physical lines `k..` on top of `acc`: a line
/// whose first non-blank character is `+` continues the previous logical line
/// (after a space, with the `+` dropped and the rest trimmed); an empty line
/// (after comment stripping) is skipped; any other line starts a logical line
/// numbered by its 1-based physical line.
pub open spec fn reassemble_from(
    ls: Seq<Seq<char>>,
    k: int,
    acc: Seq<(int, Seq<char>)>,
) -> Result<Seq<(int, Seq<char>)>, SpiceErrorModel>
    decreases ls.len() - k,
{
    if k < 0 || k >= ls.len() {
        Ok(acc)
    } else {
        let cleaned = strip_comment(ls[k]);
        let t = trim_start(cleaned);
        if t.len() > 0 && t[0] == '+' {
            if acc.len() == 0 {
                Err(SpiceErrorModel::DanglingContinuation(k + 1))
            } else {
                let last = acc.last();
                reassemble_from(
                    ls,
                    k + 1,
                    acc.drop_last().push((last.0, last.1 + seq![' '] + trim(t.drop_first()))),
                )
            }
        } else if t.len() == 0 {
            reassemble_from(ls, k + 1, acc)
        } else {
            reassemble_from(ls, k + 1, acc.push((k + 1, cleaned)))
        }
    }
}

/// The logical lines of a deck.
pub open spec fn spec_reassemble(text: Seq<char>) -> Result<Seq<(int, Seq<char>)>, SpiceErrorModel> {
    reassemble_from(lines(text), 0, seq![])
}

/// The logical lines as numbers and character sequences.
pub open spec fn lviews(v: Seq<(usize, Vec<char>)>) -> Seq<(int, Seq<char>)> {
    v.map_values(|p: (usize, Vec<char>)| (p.0 as int, p.1@))
}

/// Strip the comment from one physical line.
fn strip_comment_exec(raw: &Vec<char>) -> (r: Vec<char>)
    ensures
        r@ == strip_comment(raw@),
{
    let n = raw.len();
    let lo = skip_ws(raw, 0, n);
    proof {
        assert(raw@.subrange(0, n as int) =~= raw@);
    }
    if lo < n && raw[lo] == '*' {
        return Vec::new();
    }
    let mut cut: usize = 0;
    while cut < n && raw[cut] != ';' && raw[cut] != '$'
        invariant
            n == raw@.len(),
            cut <= n,
            comment_cut(raw@, cut as int) == comment_cut(raw@, 0),
        decreases n - cut,
    {
        cut = cut + 1;
    }
    let hi = back_ws(raw, 0, cut);
    proof {
        assert(raw@.subrange(0, cut as int) =~= raw@.take(cut as int));
    }
    copy_range(raw, 0, hi)
}

/// Reassemble the physical lines of `text` into logical lines.
fn reassemble(text: &Vec<char>) -> (r: Result<Vec<(usize, Vec<char>)>, SpiceError>)
    ensures
        match r {
            Ok(v) => spec_reassemble(text@) == Ok::<Seq<(int, Seq<char>)>, SpiceErrorModel>(
                lviews(v@),
            ),
            Err(e) => spec_reassemble(text@) == Err::<Seq<(int, Seq<char>)>, SpiceErrorModel>(e@),
        },
{
    let phys = split_lines(text);
    let ghost ls = vviews(phys@);
    let mut out: Vec<(usize, Vec<char>)> = Vec::new();
    proof {
        assert(lviews(out@) =~= seq![]);
    }
    let mut k: usize = 0;
    while k < phys.len()
        invariant
            ls == vviews(phys@),
            ls == lines(text@),
            k <= phys@.len(),
            reassemble_from(ls, k as int, lviews(out@)) == spec_reassemble(text@),
        decreases phys@.len() - k,
    {
        let cleaned = strip_comment_exec(&phys[k]);
        let n = cleaned.len();
        let lo = skip_ws(&cleaned, 0, n);
        proof {
            assert(cleaned@.subrange(0, n as int) =~= cleaned@);
            assert(cleaned@ == strip_comment(ls[k as int]));
        }
        if lo < n && cleaned[lo] == '+' {
            if out.len() == 0 {
                return Err(SpiceError::DanglingContinuation { line: k + 1 });
            }
            let ghost before = lviews(out@);
            let cont = copy_range(&cleaned, lo + 1, n);
            let cont = trimmed(&cont);
            let last = out.pop().unwrap();
            let (num, mut body) = last;
            body.push(' ');
            let mut c: usize = 0;
            let ghost base = body@;
            while c < cont.len()
                invariant
                    c <= cont@.len(),
                    body@ == base + cont@.take(c as int),
                decreases cont@.len() - c,
            {
                body.push(cont[c]);
                proof {
                    assert(body@ =~= base + cont@.take(c + 1));
                }
                c = c + 1;
            }
            out.push((num, body));
            proof {
                let t = trim_start(cleaned@);
                assert(t.drop_first() =~= cleaned@.subrange(lo + 1, n as int));
                assert(body@ =~= before.last().1 + seq![' '] + trim(t.drop_first()));
                assert(lviews(out@) =~= before.drop_last().push(
                    (before.last().0, before.last().1 + seq![' '] + trim(t.drop_first())),
                ));
            }
        } else if lo == n {
        } else {
            let ghost before = lviews(out@);
            out.push((k + 1, cleaned));
            proof {
                assert(lviews(out@) =~= before.push(((k + 1) as int, cleaned@)));
            }
        }
        k = k + 1;
    }
    Ok(out)
}

// ---------------------------------------------------------------------------
// Parsing logical lines
// ---------------------------------------------------------------------------

/// `.subckt`
pub open spec fn kw_subckt() -> Seq<char> {
    seq!['.', 's', 'u', 'b', 'c', 'k', 't']
}

/// `.ends`
pub open spec fn kw_ends() -> Seq<char> {
    seq!['.', 'e', 'n', 'd', 's']
}

/// `.eom`
pub open spec fn kw_eom() -> Seq<char> {
    seq!['.', 'e', 'o', 'm']
}

/// `params:`, the optional separator before header parameters.
pub open spec fn kw_params() -> Seq<char> {
    seq!['p', 'a', 'r', 'a', 'm', 's', ':']
}

/// The ports among header tokens: every token that is neither the `params:`
/// separator (in any case) nor a `key=value` parameter.
pub open spec fn header_ports(ts: Seq<Seq<char>>) -> Seq<Seq<char>>
    decreases ts.len(),
{
    if ts.len() == 0 {
        seq![]
    } else if eq_ignore_case(ts.last(), kw_params()) || is_kv(ts.last()) {
        header_ports(ts.drop_last())
    } else {
        header_ports(ts.drop_last()).push(ts.last())
    }
}

/// The definition a `.subckt` header (the text after the keyword) declares.
pub open spec fn spec_header(rest: Seq<char>, lineno: int) -> Result<SubcktModel, SpiceErrorModel> {
    let toks = tokens(rest);
    if toks.len() == 0 {
        Err(SpiceErrorModel::MissingSubcktName(lineno))
    } else {
        Ok(
            SubcktModel {
                name: toks[0],
                ports: header_ports(toks.skip(1)),
                params: kv_params(toks.skip(1)),
                body: seq![],
            },
        )
    }
}

/// The index of the first definition at or after `i` named `name`, or the count.
pub open spec fn find_def(defs: Seq<SubcktModel>, name: Seq<char>, i: int) -> int
    decreases defs.len() - i,
{
    if i < 0 || i >= defs.len() || defs[i].name == name {
        i
    } else {
        find_def(defs, name, i + 1)
    }
}

pub(crate) proof fn lemma_find_def(defs: Seq<SubcktModel>, name: Seq<char>, i: int)
    requires
        0 <= i <= defs.len(),
    ensures
        i <= find_def(defs, name, i) <= defs.len(),
        find_def(defs, name, i) < defs.len() ==> defs[find_def(defs, name, i)].name == name,
        forall|k: int| i <= k < find_def(defs, name, i) ==> #[trigger] defs[k].name != name,
    decreases defs.len() - i,
{
    if i < defs.len() && defs[i].name != name {
        lemma_find_def(defs, name, i + 1);
    }
}

/// `nl` with definition `sub` added, replacing one of the same name in place.
pub open spec fn with_def(nl: NetlistModel, sub: SubcktModel) -> NetlistModel {
    let i = find_def(nl.defs, sub.name, 0);
    NetlistModel {
        top: nl.top,
        defs: if i < nl.defs.len() {
            nl.defs.update(i, sub)
        } else {
            nl.defs.push(sub)
        },
        directives: nl.directives,
    }
}

/// `nl` with device `d` appended to the body of definition `i`.
pub open spec fn with_body_device(nl: NetlistModel, i: int, d: DeviceModel) -> NetlistModel {
    let def = nl.defs[i];
    NetlistModel {
        top: nl.top,
        defs: nl.defs.update(
            i,
            SubcktModel { name: def.name, ports: def.ports, params: def.params, body: def.body.push(d) },
        ),
        directives: nl.directives,
    }
}

/// `nl` with device `d` appended to the top level.
pub open spec fn with_top_device(nl: NetlistModel, d: DeviceModel) -> NetlistModel {
    NetlistModel { top: nl.top.push(d), defs: nl.defs, directives: nl.directives }
}

/// `nl` with directive `line` recorded.
pub open spec fn with_directive(nl: NetlistModel, line: Seq<char>) -> NetlistModel {
    NetlistModel { top: nl.top, defs: nl.defs, directives: nl.directives.push(line) }
}

/// What one logical line does to the netlist and the open definition.
pub enum LineOutcome {
    /// Go on with the next line.
    Next(NetlistModel, Option<int>),
    /// The deck is malformed.
    Fail(SpiceErrorModel),
}

/// The effect of logical line `raw` (numbered `lineno`) on netlist `nl` while
/// definition `open` (if any) is open. Blank lines do nothing; `.subckt` adds a
/// definition and opens it; `.ends`/`.eom` close the open one (an error when
/// none is open); any other `.` line, `.end` among them, is a directive kept
/// verbatim, and reading goes on after it; every other
/// line is a device card, added to the open definition or else the top level.
/// Keywords are matched without regard to ASCII case.
pub open spec fn parse_line(nl: NetlistModel, open: Option<int>, lineno: int, raw: Seq<char>) -> LineOutcome {
    let line = trim(raw);
    if line.len() == 0 {
        LineOutcome::Next(nl, open)
    } else if line[0] == '.' {
        let low = lower_seq(line);
        if has_prefix(low, kw_subckt()) {
            match spec_header(line.skip(7), lineno) {
                Err(e) => LineOutcome::Fail(e),
                Ok(sub) => LineOutcome::Next(
                    with_def(nl, sub),
                    Some(find_def(nl.defs, sub.name, 0)),
                ),
            }
        } else if has_prefix(low, kw_ends()) || has_prefix(low, kw_eom()) {
            if open is None {
                LineOutcome::Fail(SpiceErrorModel::UnexpectedEnds(lineno))
            } else {
                LineOutcome::Next(nl, None)
            }
        } else {
            LineOutcome::Next(with_directive(nl, line), open)
        }
    } else {
        match open {
            Some(i) => LineOutcome::Next(with_body_device(nl, i, spec_parse_device(line)), open),
            None => LineOutcome::Next(with_top_device(nl, spec_parse_device(line)), open),
        }
    }
}

/// The end of the deck: an error if a definition is still open.
pub open spec fn finish(nl: NetlistModel, open: Option<int>) -> Result<NetlistModel, SpiceErrorModel> {
    match open {
        Some(i) => Err(SpiceErrorModel::UnterminatedSubckt(nl.defs[i].name)),
        None => Ok(nl),
    }
}

/// The result of reading logical lines `k..` from state `(nl, open)`.
pub open spec fn parse_from(
    ls: Seq<(int, Seq<char>)>,
    k: int,
    nl: NetlistModel,
    open: Option<int>,
) -> Result<NetlistModel, SpiceErrorModel>
    decreases ls.len() - k,
{
    if k < 0 || k >= ls.len() {
        finish(nl, open)
    } else {
        match parse_line(nl, open, ls[k].0, ls[k].1) {
            LineOutcome::Next(nl2, open2) => parse_from(ls, k + 1, nl2, open2),
            LineOutcome::Fail(e) => Err(e),
        }
    }
}

/// The netlist a SPICE deck describes, or the first error in it.
pub open spec fn spec_parse(text: Seq<char>) -> Result<NetlistModel, SpiceErrorModel> {
    match spec_reassemble(text) {
        Err(e) => Err(e),
        Ok(ls) => parse_from(ls, 0, empty_netlist(), None),
    }
}

/// Parse the text following the `.subckt` keyword: `NAME port... [k=v ...]`.
fn parse_subckt_header(rest: &Vec<char>, lineno: usize) -> (r: Result<Subckt, SpiceError>)
    ensures
        match r {
            Ok(sub) => spec_header(rest@, lineno as int) == Ok::<SubcktModel, SpiceErrorModel>(
                sub@,
            ),
            Err(e) => spec_header(rest@, lineno as int) == Err::<SubcktModel, SpiceErrorModel>(
                e@,
            ),
        },
{
    let toks = split_tokens(rest);
    let ghost ts = vviews(toks@);
    if toks.len() == 0 {
        return Err(SpiceError::MissingSubcktName { line: lineno });
    }
    let sep = vec!['p', 'a', 'r', 'a', 'm', 's', ':'];
    proof {
        assert(sep@ == kw_params());
    }
    let name = string_of(&toks[0]);
    let mut ports: Vec<String> = Vec::new();
    let mut params: Vec<(String, String)> = Vec::new();
    let mut j: usize = 1;
    proof {
        assert(strs(ports@) =~= header_ports(ts.subrange(1, 1)));
        assert(str_pairs(params@) =~= kv_params(ts.subrange(1, 1)));
    }
    while j < toks.len()
        invariant
            ts == vviews(toks@),
            sep@ == kw_params(),
            1 <= j <= toks@.len(),
            strs(ports@) == header_ports(ts.subrange(1, j as int)),
            str_pairs(params@) == kv_params(ts.subrange(1, j as int)),
        decreases toks@.len() - j,
    {
        let ghost seg = ts.subrange(1, j + 1);
        proof {
            assert(seg.drop_last() =~= ts.subrange(1, j as int));
            assert(seg.last() == toks@[j as int]@);
        }
        if equal_ignore_case(&toks[j], &sep) {
            proof {
                let t = seg.last();
                assert(lower_seq(t) == lower_seq(kw_params()));
                assert(lower_seq(kw_params()) =~= kw_params());
                assert forall|k: int| 0 <= k < t.len() implies #[trigger] t[k] != '=' by {
                    assert(lower_seq(t)[k] == lower(t[k]));
                    assert(kw_params()[k] != '=');
                }
                lemma_eq_from_none(t, 0);
            }
        } else if token_is_kv(&toks[j]) {
            let ghost before = params@;
            let kv = split_kv(&toks[j]);
            params.push(kv);
            proof {
                lemma_pairs_push(before, kv);
            }
        } else {
            let ghost before = ports@;
            let t = string_of(&toks[j]);
            ports.push(t);
            proof {
                lemma_strs_push(before, t);
            }
        }
        j = j + 1;
    }
    let sub = Subckt { name, ports, params, body: Vec::new() };
    proof {
        assert(ts.subrange(1, toks@.len() as int) =~= ts.skip(1));
        assert(devs(sub.body@) =~= seq![]);
    }
    Ok(sub)
}

proof fn lemma_subs_push(a: Seq<Subckt>, x: Subckt)
    ensures
        subs(a.push(x)) == subs(a).push(x@),
{
    assert(subs(a.push(x)) =~= subs(a).push(x@));
}

proof fn lemma_devs_push(a: Seq<Device>, x: Device)
    ensures
        devs(a.push(x)) == devs(a).push(x@),
{
    assert(devs(a.push(x)) =~= devs(a).push(x@));
}

impl SpiceNetlist {
    /// The index of the definition named `name`, or the number of definitions.
    fn def_index(&self, name: &String) -> (r: usize)
        ensures
            r == find_def(self@.defs, name@, 0),
            r <= self@.defs.len(),
    {
        proof {
            lemma_find_def(self@.defs, name@, 0);
        }
        let mut i: usize = 0;
        while i < self.defs.len() && !(self.defs[i].name == *name)
            invariant
                i <= self.defs@.len(),
                self@.defs == subs(self.defs@),
                find_def(self@.defs, name@, i as int) == find_def(self@.defs, name@, 0),
            decreases self.defs@.len() - i,
        {
            i = i + 1;
        }
        i
    }

    /// Add definition `sub`, replacing one of the same name in place; returns
    /// its index.
    fn add_def(&mut self, sub: Subckt) -> (ix: usize)
        requires
            old(self).wf(),
        ensures
            final(self).wf(),
            final(self)@ == with_def(old(self)@, sub@),
            ix == find_def(old(self)@.defs, sub@.name, 0),
            ix < final(self)@.defs.len(),
    {
        let ix = self.def_index(&sub.name);
        let ghost before = self.defs@;
        proof {
            lemma_find_def(subs(before), sub@.name, 0);
        }
        if ix < self.defs.len() {
            self.defs.set(ix, sub);
            proof {
                assert(subs(self.defs@) =~= subs(before).update(ix as int, sub@));
                assert(def_names(subs(self.defs@)) =~= def_names(subs(before)));
            }
        } else {
            let ghost order = self.subckt_order@;
            let name = sub.name.clone();
            self.subckt_order.push(name);
            self.defs.push(sub);
            proof {
                lemma_subs_push(before, sub);
                lemma_strs_push(order, name);
                assert(def_names(subs(self.defs@)) =~= def_names(subs(before)).push(sub@.name));
            }
        }
        ix
    }

    /// Append device `d` to the body of definition `ix`.
    fn add_body_device(&mut self, ix: usize, d: Device)
        requires
            old(self).wf(),
            ix < old(self)@.defs.len(),
        ensures
            final(self).wf(),
            final(self)@ == with_body_device(old(self)@, ix as int, d@),
    {
        let ghost before = self.defs@;
        let ghost nl0 = self@;
        let mut def = self.defs.remove(ix);
        let ghost body = def.body@;
        def.body.push(d);
        self.defs.insert(ix, def);
        proof {
            lemma_devs_push(body, d);
            assert(self.defs@ =~= before.update(ix as int, def));
            assert(subs(self.defs@) =~= with_body_device(nl0, ix as int, d@).defs) by {
                assert(subs(self.defs@) =~= subs(before).update(
                    ix as int,
                    SubcktModel {
                        name: subs(before)[ix as int].name,
                        ports: subs(before)[ix as int].ports,
                        params: subs(before)[ix as int].params,
                        body: subs(before)[ix as int].body.push(d@),
                    },
                ));
            }
            assert(def_names(subs(self.defs@)) =~= def_names(subs(before)));
        }
    }

    /// Parse SPICE netlist text: comments, continuations, subckt blocks,
    /// directives and device cards (see the module documentation).
    ///
    /// Every netlist it returns can be written back and read again (see
    /// [`writable_netlist`]).
    pub fn parse(text: &str) -> (res: Result<SpiceNetlist, SpiceError>)
        ensures
            match res {
                Ok(nl) => nl.wf() && spec_parse(text@) == Ok::<NetlistModel, SpiceErrorModel>(nl@)
                    && writable_netlist(nl@),
                Err(e) => spec_parse(text@) == Err::<NetlistModel, SpiceErrorModel>(e@),
            },
    {
        proof {
            lemma_parsed_writable(text@);
        }
        Self::parse_text(text)
    }

    /// The netlist of a deck, line by line.
    fn parse_text(text: &str) -> (res: Result<SpiceNetlist, SpiceError>)
        ensures
            match res {
                Ok(nl) => nl.wf() && spec_parse(text@) == Ok::<NetlistModel, SpiceErrorModel>(nl@),
                Err(e) => spec_parse(text@) == Err::<NetlistModel, SpiceErrorModel>(e@),
            },
    {
        let chars = chars_of(text);
        let logical = match reassemble(&chars) {
            Ok(v) => v,
            Err(e) => {
                return Err(e);
            },
        };
        let ghost ls = lviews(logical@);
        let ghost goal = parse_from(ls, 0, empty_netlist(), None);
        proof {
            assert(spec_parse(text@) == goal);
        }
        let mut nl = SpiceNetlist {
            top: Vec::new(),
            defs: Vec::new(),
            subckt_order: Vec::new(),
            directives: Vec::new(),
        };
        proof {
            assert(nl@.top =~= seq![]);
            assert(nl@.defs =~= seq![]);
            assert(nl@.directives =~= seq![]);
            assert(def_names(subs(nl.defs@)) =~= strs(nl.subckt_order@));
        }
        let mut open: Option<usize> = None;
        let v_sub = vec!['.', 's', 'u', 'b', 'c', 'k', 't'];
        let v_ends = vec!['.', 'e', 'n', 'd', 's'];
        let v_eom = vec!['.', 'e', 'o', 'm'];
        proof {
            assert(lower_seq(v_sub@) =~= kw_subckt());
            assert(lower_seq(v_ends@) =~= kw_ends());
            assert(lower_seq(v_eom@) =~= kw_eom());
        }
        let mut k: usize = 0;
        while k < logical.len()
            invariant
                ls == lviews(logical@),
                k <= logical@.len(),
                goal == parse_from(ls, 0, empty_netlist(), None),
                spec_parse(text@) == goal,
                lower_seq(v_sub@) == kw_subckt(),
                lower_seq(v_ends@) == kw_ends(),
                lower_seq(v_eom@) == kw_eom(),
                nl.wf(),
                match open {
                    Some(i) => i < nl@.defs.len(),
                    None => true,
                },
                parse_from(
                    ls,
                    k as int,
                    nl@,
                    match open {
                        Some(i) => Some(i as int),
                        None => None,
                    },
                ) == goal,
            decreases logical@.len() - k,
        {
            let ghost st = match open {
                Some(i) => Some(i as int),
                None => None,
            };
            let ghost nl0 = nl@;
            let lineno = logical[k].0;
            let line = trimmed(&logical[k].1);
            let ghost outcome = parse_line(nl0, st, ls[k as int].0, ls[k as int].1);
            proof {
                assert(line@ == trim(ls[k as int].1));
                assert(lineno as int == ls[k as int].0);
            }
            if line.len() == 0 {
            } else if line[0] == '.' {
                if starts_with_ignore_case(&line, &v_sub) {
                    let rest = copy_range(&line, 7, line.len());
                    proof {
                        assert(rest@ == line@.skip(7));
                    }
                    let sub = match parse_subckt_header(&rest, lineno) {
                        Ok(s) => s,
                        Err(e) => {
                            proof {
                                assert(has_prefix(lower_seq(line@), kw_subckt()));
                                assert(outcome == LineOutcome::Fail(e@));
                            }
                            return Err(e);
                        },
                    };
                    let ix = self::SpiceNetlist::add_def(&mut nl, sub);
                    open = Some(ix);
                } else if starts_with_ignore_case(&line, &v_ends) || starts_with_ignore_case(
                    &line,
                    &v_eom,
                ) {
                    if open.is_none() {
                        proof {
                            assert(!has_prefix(lower_seq(line@), kw_subckt()));
                            assert(outcome == LineOutcome::Fail(
                                SpiceErrorModel::UnexpectedEnds(lineno as int),
                            ));
                        }
                        return Err(SpiceError::UnexpectedEnds { line: lineno });
                    }
                    open = None;
                } else {
                    let ghost dirs = nl.directives@;
                    let d = string_of(&line);
                    nl.directives.push(d);
                    proof {
                        lemma_strs_push(dirs, d);
                    }
                }
            } else {
                let dev = parse_device(&line);
                match open {
                    Some(ix) => {
                        nl.add_body_device(ix, dev);
                    },
                    None => {
                        let ghost top = nl.top@;
                        nl.top.push(dev);
                        proof {
                            lemma_devs_push(top, dev);
                        }
                    },
                }
            }
            k = k + 1;
        }
        match open {
            Some(ix) => Err(SpiceError::UnterminatedSubckt { name: nl.defs[ix].name.clone() }),
            None => Ok(nl),
        }
    }
}

// ---------------------------------------------------------------------------
// Queries, promotion and construction
// ---------------------------------------------------------------------------

/// The value of the first parameter whose key equals `key` up to ASCII case.
pub open spec fn param_lookup(ps: Seq<(Seq<char>, Seq<char>)>, key: Seq<char>) -> Option<Seq<char>>
    decreases ps.len(),
{
    if ps.len() == 0 {
        None
    } else if eq_ignore_case(ps[0].0, key) {
        Some(ps[0].1)
    } else {
        param_lookup(ps.drop_first(), key)
    }
}

impl Device {
    /// The number of node terminals on this device.
    pub fn arity(&self) -> (n: usize)
        ensures
            n == self@.nodes.len(),
    {
        self.nodes.len()
    }

    /// Look up a parameter value by key, ignoring ASCII case; the first match wins.
    pub fn param(&self, key: &str) -> (r: Option<&str>)
        ensures
            match r {
                Some(v) => param_lookup(self@.params, key@) == Some(v@),
                None => param_lookup(self@.params, key@) is None,
            },
    {
        let want = chars_of(key);
        let ghost ps = self@.params;
        proof {
            assert(ps.skip(0) =~= ps);
        }
        let mut i: usize = 0;
        while i < self.params.len()
            invariant
                ps == str_pairs(self.params@),
                i <= self.params@.len(),
                param_lookup(ps.skip(i as int), key@) == param_lookup(ps, key@),
                want@ == key@,
            decreases self.params@.len() - i,
        {
            let k = chars_of(self.params[i].0.as_str());
            proof {
                assert(ps.skip(i as int)[0] == ps[i as int]);
                assert(ps.skip(i as int).drop_first() =~= ps.skip(i + 1));
            }
            if equal_ignore_case(&k, &want) {
                return Some(self.params[i].1.as_str());
            }
            i = i + 1;
        }
        None
    }
}

/// The number of devices in all the definitions' bodies.
pub open spec fn body_total(defs: Seq<SubcktModel>) -> int
    decreases defs.len(),
{
    if defs.len() == 0 {
        0
    } else {
        body_total(defs.drop_last()) + defs.last().body.len()
    }
}

/// The number of devices: top-level ones plus those in every definition.
pub open spec fn device_total(nl: NetlistModel) -> int {
    nl.top.len() + body_total(nl.defs)
}

/// The devices in the bodies of the definitions named in `ns`, each definition
/// looked up by name as [`SpiceNetlist::subckt`] does.
pub open spec fn bodies_by_name(defs: Seq<SubcktModel>, ns: Seq<Seq<char>>) -> int
    decreases ns.len(),
{
    if ns.len() == 0 {
        0
    } else {
        bodies_by_name(defs, ns.drop_last()) + defs[find_def(defs, ns.last(), 0)].body.len()
    }
}

/// With distinct definition names, looking a definition's name up finds it.
pub proof fn lemma_find_own_name(defs: Seq<SubcktModel>, k: int)
    requires
        names_distinct(defs),
        0 <= k < defs.len(),
    ensures
        find_def(defs, defs[k].name, 0) == k,
{
    lemma_find_def(defs, defs[k].name, 0);
    let f = find_def(defs, defs[k].name, 0);
    if f != k {
        assert(f < k ==> defs[f].name == defs[k].name);
    }
}

proof fn lemma_bodies_by_name_prefix(defs: Seq<SubcktModel>, k: int)
    requires
        names_distinct(defs),
        0 <= k <= defs.len(),
    ensures
        bodies_by_name(defs, def_names(defs).take(k)) == body_total(defs.take(k)),
    decreases k,
{
    if k > 0 {
        lemma_bodies_by_name_prefix(defs, k - 1);
        assert(def_names(defs).take(k).drop_last() =~= def_names(defs).take(k - 1));
        assert(defs.take(k).drop_last() =~= defs.take(k - 1));
        lemma_find_own_name(defs, k - 1);
    } else {
        assert(def_names(defs).take(0) =~= Seq::<Seq<char>>::empty());
        assert(defs.take(0) =~= Seq::<SubcktModel>::empty());
    }
}

/// The device count is the number of top-level devices plus, for each
/// definition name in order, the body of the definition of that name.
pub proof fn lemma_device_total_by_name(nl: NetlistModel)
    requires
        names_distinct(nl.defs),
    ensures
        device_total(nl) == nl.top.len() + bodies_by_name(nl.defs, def_names(nl.defs)),
{
    lemma_bodies_by_name_prefix(nl.defs, nl.defs.len() as int);
    assert(def_names(nl.defs).take(nl.defs.len() as int) =~= def_names(nl.defs));
    assert(nl.defs.take(nl.defs.len() as int) =~= nl.defs);
}

/// `nl` with the body of definition `i` appended to the top level.
pub open spec fn promoted(nl: NetlistModel, i: int) -> NetlistModel {
    NetlistModel { top: nl.top + nl.defs[i].body, defs: nl.defs, directives: nl.directives }
}

proof fn lemma_body_total_nonneg(defs: Seq<SubcktModel>)
    ensures
        body_total(defs) >= 0,
    decreases defs.len(),
{
    if defs.len() > 0 {
        lemma_body_total_nonneg(defs.drop_last());
    }
}

impl SpiceNetlist {
    /// Total number of devices: top-level devices plus every device inside
    /// every `.subckt` body.
    pub fn device_count(&self) -> (n: usize)
        requires
            device_total(self@) <= usize::MAX,
        ensures
            n == device_total(self@),
    {
        let ghost ds = self@.defs;
        let mut total: usize = 0;
        let mut i: usize = 0;
        while i < self.defs.len()
            invariant
                ds == subs(self.defs@),
                i <= ds.len(),
                total == body_total(ds.take(i as int)),
                self@.top.len() + body_total(ds) <= usize::MAX,
            decreases ds.len() - i,
        {
            proof {
                assert(ds.take(i + 1).drop_last() =~= ds.take(i as int));
                lemma_body_total_nonneg(ds.take(i as int));
                lemma_body_total_prefix(ds, i + 1);
            }
            total = total + self.defs[i].body.len();
            i = i + 1;
        }
        proof {
            assert(ds.take(ds.len() as int) =~= ds);
            lemma_body_total_nonneg(ds);
        }
        self.top.len() + total
    }

    /// Number of devices currently at the top level.
    pub fn top_device_count(&self) -> (n: usize)
        ensures
            n == self@.top.len(),
    {
        self.top.len()
    }

    /// Names of all subcircuits defined, in source order.
    pub fn subckts(&self) -> (r: &[String])
        requires
            self.wf(),
        ensures
            strs(r@) == def_names(self@.defs),
            names_distinct(self@.defs),
    {
        self.subckt_order.as_slice()
    }

    /// Whether the top level has no devices.
    pub fn top_is_empty(&self) -> (b: bool)
        ensures
            b == (self@.top.len() == 0),
    {
        self.top.len() == 0
    }

    /// The top-level devices.
    pub fn top_devices(&self) -> (r: &[Device])
        ensures
            devs(r@) == self@.top,
    {
        self.top.as_slice()
    }

    /// Look up a subckt definition by name.
    pub fn subckt(&self, name: &str) -> (r: Option<&Subckt>)
        ensures
            match r {
                Some(d) => find_def(self@.defs, name@, 0) < self@.defs.len() && d@ == self@.defs[find_def(
                    self@.defs,
                    name@,
                    0,
                )],
                None => find_def(self@.defs, name@, 0) == self@.defs.len(),
            },
    {
        let key = String::from_str(name);
        let ix = self.def_index(&key);
        if ix < self.defs.len() {
            Some(&self.defs[ix])
        } else {
            None
        }
    }

    /// The recorded control directives, verbatim.
    pub fn directives(&self) -> (r: &[String])
        ensures
            strs(r@) == self@.directives,
    {
        self.directives.as_slice()
    }

    /// Promote the named subckt's body to the top level: its devices are
    /// appended to the top level and the definition is kept. Returns whether
    /// the name exists.
    pub fn select_subckt(&mut self, name: &str) -> (found: bool)
        requires
            old(self).wf(),
        ensures
            final(self).wf(),
            found == (find_def(old(self)@.defs, name@, 0) < old(self)@.defs.len()),
            found ==> final(self)@ == promoted(old(self)@, find_def(old(self)@.defs, name@, 0)),
            !found ==> final(self)@ == old(self)@,
            writable_netlist(old(self)@) ==> writable_netlist(final(self)@),
    {
        proof {
            lemma_find_def(self@.defs, name@, 0);
            if writable_netlist(self@) && find_def(self@.defs, name@, 0) < self@.defs.len() {
                lemma_promoted_writable(self@, find_def(self@.defs, name@, 0));
            }
        }
        let key = String::from_str(name);
        let ix = self.def_index(&key);
        if ix >= self.defs.len() {
            return false;
        }
        let ghost nl0 = self@;
        let mut j: usize = 0;
        while j < self.defs[ix].body.len()
            invariant
                ix < self.defs@.len(),
                self.defs@ == old(self).defs@,
                self.subckt_order@ == old(self).subckt_order@,
                self.directives@ == old(self).directives@,
                nl0 == old(self)@,
                j <= self.defs@[ix as int].body@.len(),
                devs(self.top@) == nl0.top + nl0.defs[ix as int].body.take(j as int),
            decreases self.defs@[ix as int].body@.len() - j,
        {
            let ghost top = self.top@;
            let d = self.defs[ix].body[j].clone();
            self.top.push(d);
            proof {
                lemma_devs_push(top, d);
                assert(nl0.defs[ix as int].body.take(j + 1) =~= nl0.defs[ix as int].body.take(
                    j as int,
                ).push(d@));
                assert(devs(self.top@) =~= nl0.top + nl0.defs[ix as int].body.take(j + 1));
            }
            j = j + 1;
        }
        proof {
            assert(nl0.defs[ix as int].body.take(j as int) =~= nl0.defs[ix as int].body);
        }
        true
    }

    /// If the top level is empty and a subckt exists, promote the first one
    /// (in source order); otherwise do nothing.
    pub fn promote_first_subckt(&mut self)
        requires
            old(self).wf(),
        ensures
            final(self).wf(),
            old(self)@.top.len() == 0 && old(self)@.defs.len() > 0 ==> final(self)@ == promoted(
                old(self)@,
                0,
            ),
            !(old(self)@.top.len() == 0 && old(self)@.defs.len() > 0) ==> final(self)@ == old(
                self,
            )@,
            writable_netlist(old(self)@) ==> writable_netlist(final(self)@),
    {
        proof {
            if writable_netlist(self@) && self@.top.len() == 0 && self@.defs.len() > 0 {
                lemma_promoted_writable(self@, 0);
            }
        }
        if self.top.len() == 0 && self.subckt_order.len() > 0 {
            let first = self.subckt_order[0].clone();
            proof {
                assert(strs(self.subckt_order@).len() == def_names(self@.defs).len());
                assert(self@.defs.len() > 0);
                assert(strs(self.subckt_order@)[0] == def_names(self@.defs)[0]);
                assert(strs(self.subckt_order@)[0] == self.subckt_order@[0]@);
                assert(def_names(self@.defs)[0] == self@.defs[0].name);
                assert(first@ == self@.defs[0].name);
            }
            let s = first.as_str();
            proof {
                lemma_find_def(self@.defs, s@, 0);
            }
            self.select_subckt(s);
        } else {
            proof {
                assert(strs(self.subckt_order@).len() == def_names(self@.defs).len());
            }
        }
    }

    /// A flat netlist of top-level devices, one per name: each device has the
    /// name and its upper-cased first letter as kind, and nothing else.
    pub fn from_devices(devices: Vec<String>) -> (nl: SpiceNetlist)
        ensures
            nl.wf(),
            nl@.top == strs(devices@).map_values(|n: Seq<char>| bare_device(n, kind_of(n))),
            nl@.defs.len() == 0,
            nl@.directives.len() == 0,
    {
        let mut top: Vec<Device> = Vec::new();
        let mut i: usize = 0;
        while i < devices.len()
            invariant
                i <= devices@.len(),
                devs(top@) == strs(devices@.take(i as int)).map_values(
                    |n: Seq<char>| bare_device(n, kind_of(n)),
                ),
            decreases devices@.len() - i,
        {
            let name = devices[i].clone();
            let cs = chars_of(name.as_str());
            let kind = if cs.len() > 0 {
                to_upper(cs[0])
            } else {
                '\0'
            };
            let d = Device { name, kind, nodes: Vec::new(), model: None, params: Vec::new() };
            let ghost before = top@;
            top.push(d);
            proof {
                lemma_devs_push(before, d);
                assert(d@.nodes =~= seq![]);
                assert(d@.params =~= seq![]);
                assert(d@ == bare_device(devices@[i as int]@, kind_of(devices@[i as int]@)));
                assert(strs(devices@.take(i + 1)).map_values(
                    |n: Seq<char>| bare_device(n, kind_of(n)),
                ) =~= strs(devices@.take(i as int)).map_values(
                    |n: Seq<char>| bare_device(n, kind_of(n)),
                ).push(d@));
            }
            i = i + 1;
        }
        let nl = SpiceNetlist {
            top,
            defs: Vec::new(),
            subckt_order: Vec::new(),
            directives: Vec::new(),
        };
        proof {
            assert(devices@.take(devices@.len() as int) =~= devices@);
            assert(nl@.defs =~= seq![]);
            assert(nl@.directives =~= seq![]);
            assert(def_names(subs(nl.defs@)) =~= strs(nl.subckt_order@));
        }
        nl
    }
}

proof fn lemma_body_total_prefix(ds: Seq<SubcktModel>, i: int)
    requires
        0 <= i <= ds.len(),
    ensures
        body_total(ds.take(i)) <= body_total(ds),
    decreases ds.len() - i,
{
    if i < ds.len() {
        lemma_body_total_prefix(ds, i + 1);
        assert(ds.take(i + 1).drop_last() =~= ds.take(i));
    } else {
        assert(ds.take(i) =~= ds);
    }
}

// ---------------------------------------------------------------------------
// Writing
// ---------------------------------------------------------------------------

/// Each word after a space: `" w1 w2 ..."`.
pub open spec fn spaced(ws: Seq<Seq<char>>) -> Seq<char>
    decreases ws.len(),
{
    if ws.len() == 0 {
        seq![]
    } else {
        spaced(ws.drop_last()) + seq![' '] + ws.last()
    }
}

/// Each parameter after a space: `" k1=v1 k2=v2 ..."`.
pub open spec fn params_text(ps: Seq<(Seq<char>, Seq<char>)>) -> Seq<char>
    decreases ps.len(),
{
    if ps.len() == 0 {
        seq![]
    } else {
        params_text(ps.drop_last()) + seq![' '] + ps.last().0 + seq!['='] + ps.last().1
    }
}

/// The card of a device: name, nodes, model, parameters, newline.
pub open spec fn device_line(d: DeviceModel) -> Seq<char> {
    d.name + spaced(d.nodes) + match d.model {
        Some(m) => seq![' '] + m,
        None => seq![],
    } + params_text(d.params) + seq!['\n']
}

/// The cards of a list of devices.
pub open spec fn devices_text(ds: Seq<DeviceModel>) -> Seq<char>
    decreases ds.len(),
{
    if ds.len() == 0 {
        seq![]
    } else {
        devices_text(ds.drop_last()) + device_line(ds.last())
    }
}

/// A `.subckt` block: header line, body cards, `.ends NAME` line.
pub open spec fn subckt_text(d: SubcktModel) -> Seq<char> {
    seq!['.', 's', 'u', 'b', 'c', 'k', 't', ' '] + d.name + spaced(d.ports) + params_text(d.params)
        + seq!['\n'] + devices_text(d.body) + seq!['.', 'e', 'n', 'd', 's', ' '] + d.name + seq!['\n']
}

/// The blocks of a list of definitions.
pub open spec fn defs_text(defs: Seq<SubcktModel>) -> Seq<char>
    decreases defs.len(),
{
    if defs.len() == 0 {
        seq![]
    } else {
        defs_text(defs.drop_last()) + subckt_text(defs.last())
    }
}

/// Each line followed by a newline.
pub open spec fn lines_text(ls: Seq<Seq<char>>) -> Seq<char>
    decreases ls.len(),
{
    if ls.len() == 0 {
        seq![]
    } else {
        lines_text(ls.drop_last()) + ls.last() + seq!['\n']
    }
}

/// The comment line that opens a written deck.
pub open spec fn spice_header() -> Seq<char> {
    "* Philis SPICE netlist (generated)\n"@
}

/// The text of a netlist: header comment, directives, definitions, top-level
/// cards, `.end`.
pub open spec fn spice_text(nl: NetlistModel) -> Seq<char> {
    spice_header() + lines_text(nl.directives) + defs_text(nl.defs) + devices_text(nl.top) + seq![
        '.',
        'e',
        'n',
        'd',
        '\n',
    ]
}

/// Append `s` to `out`.
fn push_str(out: &mut String, s: &str)
    ensures
        final(out)@ == old(out)@ + s@,
{
    out.append(s);
}

/// Append each word of `ws` after a space.
fn write_spaced(out: &mut String, ws: &Vec<String>)
    ensures
        final(out)@ == old(out)@ + spaced(strs(ws@)),
{
    let ghost start = out@;
    let mut i: usize = 0;
    while i < ws.len()
        invariant
            i <= ws@.len(),
            out@ == start + spaced(strs(ws@.take(i as int))),
        decreases ws@.len() - i,
    {
        push_str(out, " ");
        push_str(out, ws[i].as_str());
        proof {
            reveal_strlit(" ");
            assert(strs(ws@.take(i + 1)).drop_last() =~= strs(ws@.take(i as int)));
            assert(out@ =~= start + spaced(strs(ws@.take(i + 1))));
        }
        i = i + 1;
    }
    proof {
        assert(ws@.take(ws@.len() as int) =~= ws@);
    }
}

/// Append each parameter of `ps` after a space, as `key=value`.
fn write_params(out: &mut String, ps: &Vec<(String, String)>)
    ensures
        final(out)@ == old(out)@ + params_text(str_pairs(ps@)),
{
    let ghost start = out@;
    let mut i: usize = 0;
    while i < ps.len()
        invariant
            i <= ps@.len(),
            out@ == start + params_text(str_pairs(ps@.take(i as int))),
        decreases ps@.len() - i,
    {
        push_str(out, " ");
        push_str(out, ps[i].0.as_str());
        push_str(out, "=");
        push_str(out, ps[i].1.as_str());
        proof {
            reveal_strlit(" ");
            reveal_strlit("=");
            assert(str_pairs(ps@.take(i + 1)).drop_last() =~= str_pairs(ps@.take(i as int)));
            assert(out@ =~= start + params_text(str_pairs(ps@.take(i + 1))));
        }
        i = i + 1;
    }
    proof {
        assert(ps@.take(ps@.len() as int) =~= ps@);
    }
}

/// Append a device card.
fn write_device(out: &mut String, dev: &Device)
    ensures
        final(out)@ == old(out)@ + device_line(dev@),
{
    let ghost start = out@;
    push_str(out, dev.name.as_str());
    write_spaced(out, &dev.nodes);
    let ghost mid = out@;
    match &dev.model {
        Some(m) => {
            push_str(out, " ");
            push_str(out, m.as_str());
        },
        None => {},
    }
    let ghost after_model = out@;
    write_params(out, &dev.params);
    push_str(out, "\n");
    proof {
        reveal_strlit(" ");
        reveal_strlit("\n");
        let mt = match dev@.model {
            Some(m) => seq![' '] + m,
            None => seq![],
        };
        assert(after_model =~= mid + mt);
        assert(out@ =~= start + device_line(dev@));
    }
}

/// Append the cards of a list of devices.
fn write_devices(out: &mut String, ds: &Vec<Device>)
    ensures
        final(out)@ == old(out)@ + devices_text(devs(ds@)),
{
    let ghost start = out@;
    let mut i: usize = 0;
    while i < ds.len()
        invariant
            i <= ds@.len(),
            out@ == start + devices_text(devs(ds@.take(i as int))),
        decreases ds@.len() - i,
    {
        write_device(out, &ds[i]);
        proof {
            assert(devs(ds@.take(i + 1)).drop_last() =~= devs(ds@.take(i as int)));
            assert(out@ =~= start + devices_text(devs(ds@.take(i + 1))));
        }
        i = i + 1;
    }
    proof {
        assert(ds@.take(ds@.len() as int) =~= ds@);
    }
}

/// Append a full `.subckt` ... `.ends` block.
fn write_subckt(out: &mut String, def: &Subckt)
    ensures
        final(out)@ == old(out)@ + subckt_text(def@),
{
    let ghost start = out@;
    push_str(out, ".subckt ");
    push_str(out, def.name.as_str());
    write_spaced(out, &def.ports);
    write_params(out, &def.params);
    push_str(out, "\n");
    write_devices(out, &def.body);
    push_str(out, ".ends ");
    push_str(out, def.name.as_str());
    push_str(out, "\n");
    proof {
        reveal_strlit(".subckt ");
        reveal_strlit(".ends ");
        reveal_strlit("\n");
        assert(out@ =~= start + subckt_text(def@));
    }
}

impl SpiceNetlist {
    /// Serialize back to SPICE text: a header comment, the directives
    /// verbatim, the subckt definitions in source order, the top-level cards,
    /// and `.end`.
    ///
    /// Reading the text back keeps the directives (followed by the closing
    /// `.end`), the definition names in order, the number of top-level devices
    /// and the number of devices of a
    /// netlist that [`writable_netlist`] admits, such as any that
    /// [`SpiceNetlist::parse`] returns (see [`lemma_parse_spice_text`]).
    pub fn to_spice(&self) -> (text: String)
        ensures
            text@ == spice_text(self@),
            writable_netlist(self@) ==> {
                &&& spec_parse(text@) == Ok::<NetlistModel, SpiceErrorModel>(reparsed_netlist(self@))
                &&& device_total(spec_parse(text@)->Ok_0) == device_total(self@)
                &&& def_names(spec_parse(text@)->Ok_0.defs) == def_names(self@.defs)
                &&& spec_parse(text@)->Ok_0.top.len() == self@.top.len()
                &&& spec_parse(text@)->Ok_0.directives == self@.directives.push(end_line())
            },
    {
        proof {
            if writable_netlist(self@) {
                lemma_parse_spice_text(self@);
                lemma_round_trip_counts(self@);
            }
        }
        let mut out = String::new();
        push_str(&mut out, "* Philis SPICE netlist (generated)\n");
        let mut i: usize = 0;
        let ghost after_header = out@;
        while i < self.directives.len()
            invariant
                i <= self.directives@.len(),
                out@ == after_header + lines_text(strs(self.directives@.take(i as int))),
            decreases self.directives@.len() - i,
        {
            push_str(&mut out, self.directives[i].as_str());
            push_str(&mut out, "\n");
            proof {
                reveal_strlit("\n");
                assert(strs(self.directives@.take(i + 1)).drop_last() =~= strs(
                    self.directives@.take(i as int),
                ));
                assert(out@ =~= after_header + lines_text(strs(self.directives@.take(i + 1))));
            }
            i = i + 1;
        }
        let ghost after_dirs = out@;
        let mut j: usize = 0;
        while j < self.defs.len()
            invariant
                j <= self.defs@.len(),
                out@ == after_dirs + defs_text(subs(self.defs@.take(j as int))),
            decreases self.defs@.len() - j,
        {
            write_subckt(&mut out, &self.defs[j]);
            proof {
                assert(subs(self.defs@.take(j + 1)).drop_last() =~= subs(self.defs@.take(j as int)));
                assert(out@ =~= after_dirs + defs_text(subs(self.defs@.take(j + 1))));
            }
            j = j + 1;
        }
        write_devices(&mut out, &self.top);
        push_str(&mut out, ".end\n");
        proof {
            reveal_strlit(".end\n");
            assert(self.directives@.take(self.directives@.len() as int) =~= self.directives@);
            assert(self.defs@.take(self.defs@.len() as int) =~= self.defs@);
            assert(out@ =~= spice_text(self@));
        }
        out
    }
}

// ---------------------------------------------------------------------------
// Error text and copies
// ---------------------------------------------------------------------------

/// The human-readable text of a parse error.
pub open spec fn spice_error_text(e: SpiceErrorModel) -> Seq<char> {
    match e {
        SpiceErrorModel::MissingSubcktName(l) => "line "@ + nat_digits(l as nat)
            + ": `.subckt` directive is missing a name"@,
        SpiceErrorModel::UnexpectedEnds(l) => "line "@ + nat_digits(l as nat)
            + ": `.ends` with no matching `.subckt`"@,
        SpiceErrorModel::UnterminatedSubckt(n) => "subckt `"@ + n + "` is never closed with `.ends`"@,
        SpiceErrorModel::DanglingContinuation(l) => "line "@ + nat_digits(l as nat)
            + ": continuation `+` with no preceding line"@,
    }
}

impl SpiceError {
    /// The human-readable text of this error.
    pub fn message(&self) -> (s: String)
        ensures
            s@ == spice_error_text(self@),
    {
        match self {
            SpiceError::MissingSubcktName { line } => {
                let mut s = String::from_str("line ");
                s.append(digits_u64(*line as u64).as_str());
                s.append(": `.subckt` directive is missing a name");
                s
            },
            SpiceError::UnexpectedEnds { line } => {
                let mut s = String::from_str("line ");
                s.append(digits_u64(*line as u64).as_str());
                s.append(": `.ends` with no matching `.subckt`");
                s
            },
            SpiceError::UnterminatedSubckt { name } => {
                let mut s = String::from_str("subckt `");
                s.append(name.as_str());
                s.append("` is never closed with `.ends`");
                s
            },
            SpiceError::DanglingContinuation { line } => {
                let mut s = String::from_str("line ");
                s.append(digits_u64(*line as u64).as_str());
                s.append(": continuation `+` with no preceding line");
                s
            },
        }
    }
}

/// A copy of a list of devices.
fn clone_devices(v: &Vec<Device>) -> (r: Vec<Device>)
    ensures
        devs(r@) == devs(v@),
{
    let mut r: Vec<Device> = Vec::new();
    let mut i: usize = 0;
    while i < v.len()
        invariant
            i <= v@.len(),
            devs(r@) == devs(v@.take(i as int)),
        decreases v@.len() - i,
    {
        let ghost before = r@;
        let d = v[i].clone();
        r.push(d);
        proof {
            lemma_devs_push(before, d);
            lemma_devs_push(v@.take(i as int), v@[i as int]);
            assert(v@.take(i + 1) =~= v@.take(i as int).push(v@[i as int]));
        }
        i = i + 1;
    }
    proof {
        assert(v@.take(v@.len() as int) =~= v@);
    }
    r
}

impl Clone for Subckt {
    fn clone(&self) -> (r: Subckt)
        ensures
            r@ == self@,
    {
        Subckt {
            name: self.name.clone(),
            ports: clone_strings(&self.ports),
            params: clone_pairs(&self.params),
            body: clone_devices(&self.body),
        }
    }
}

impl Clone for SpiceNetlist {
    fn clone(&self) -> (r: SpiceNetlist)
        ensures
            r@ == self@,
            self.wf() ==> r.wf(),
    {
        let mut defs: Vec<Subckt> = Vec::new();
        let mut i: usize = 0;
        while i < self.defs.len()
            invariant
                i <= self.defs@.len(),
                subs(defs@) == subs(self.defs@.take(i as int)),
            decreases self.defs@.len() - i,
        {
            let ghost before = defs@;
            let d = self.defs[i].clone();
            defs.push(d);
            proof {
                lemma_subs_push(before, d);
                lemma_subs_push(self.defs@.take(i as int), self.defs@[i as int]);
                assert(self.defs@.take(i + 1) =~= self.defs@.take(i as int).push(self.defs@[i as int]));
            }
            i = i + 1;
        }
        proof {
            assert(self.defs@.take(self.defs@.len() as int) =~= self.defs@);
        }
        SpiceNetlist {
            top: clone_devices(&self.top),
            defs,
            subckt_order: clone_strings(&self.subckt_order),
            directives: clone_strings(&self.directives),
        }
    }
}

} // verus!
