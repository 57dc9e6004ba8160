//! Reading back a written deck: [`lemma_parse_spice_text`] shows that parsing
//! the text [`SpiceNetlist::to_spice`](crate::spice::SpiceNetlist::to_spice)
//! writes gives a netlist with the same directives (then the closing `.end`,
//! which the reader keeps as a directive), the same definitions
//! (names and device counts) and as many top-level devices, for every netlist
//! whose names, nodes and parameters are plain tokens.
use vstd::prelude::*;

use crate::spice::{
    body_total, comment_cut, def_names, defs_text, device_line, device_total, devices_text,
    empty_netlist, find_def, header_ports, kv_params, kw_ends, kw_eom, kw_subckt,
    lines_text, params_text, parse_from, parse_line, reassemble_from, spaced, spec_header,
    spec_parse, spec_parse_device, spec_reassemble, spice_header, spice_text, strip_comment,
    with_body_device, with_def, with_directive, with_top_device, DeviceModel, LineOutcome,
    NetlistModel, SpiceErrorModel, SubcktModel,
};
use crate::text::{
    has_prefix, is_ws, lemma_line_end, lemma_word_end, line_end, lines, lines_from, lower_seq,
    tokens, tokens_from, trim, trim_start, word_end,
};

verus! {

// ---------------------------------------------------------------------------
// Text as a list of lines
// ---------------------------------------------------------------------------

/// Each line followed by a newline, first line first.
pub open spec fn joined(ls: Seq<Seq<char>>) -> Seq<char>
    decreases ls.len(),
{
    if ls.len() == 0 {
        seq![]
    } else {
        ls[0] + seq!['\n'] + joined(ls.drop_first())
    }
}

/// A line that splits back to itself: no newline, and no carriage return at
/// its end.
pub open spec fn plain_line(l: Seq<char>) -> bool {
    &&& forall|i: int| 0 <= i < l.len() ==> l[i] != '\n'
    &&& (l.len() > 0 ==> l.last() != '\r')
}

proof fn lemma_joined_concat(a: Seq<Seq<char>>, b: Seq<Seq<char>>)
    ensures
        joined(a + b) == joined(a) + joined(b),
    decreases a.len(),
{
    if a.len() == 0 {
        assert(a + b =~= b);
        assert(joined(a) + joined(b) =~= joined(b));
    } else {
        lemma_joined_concat(a.drop_first(), b);
        assert((a + b).drop_first() =~= a.drop_first() + b);
        assert((a + b)[0] == a[0]);
        assert(joined(a + b) =~= joined(a) + joined(b));
    }
}

proof fn lemma_line_end_shift(p: Seq<char>, s: Seq<char>, j: int)
    requires
        0 <= j <= s.len(),
    ensures
        line_end(p + s, p.len() + j) == p.len() + line_end(s, j),
    decreases s.len() - j,
{
    if j < s.len() && s[j] != '\n' {
        lemma_line_end_shift(p, s, j + 1);
    }
}

proof fn lemma_lines_shift(p: Seq<char>, s: Seq<char>, j: int)
    requires
        0 <= j <= s.len(),
    ensures
        lines_from(p + s, p.len() + j) == lines_from(s, j),
    decreases s.len() - j,
{
    let t = p + s;
    let i = p.len() + j;
    if j < s.len() {
        lemma_line_end_shift(p, s, j);
        lemma_line_end(s, j);
        lemma_line_end(t, i);
        let e = line_end(s, j);
        assert(t.subrange(i, p.len() + e) =~= s.subrange(j, e));
        if e < s.len() {
            lemma_lines_shift(p, s, e + 1);
        }
    }
}

proof fn lemma_line_end_plain(l: Seq<char>, rest: Seq<char>, i: int)
    requires
        0 <= i <= l.len(),
        forall|k: int| 0 <= k < l.len() ==> l[k] != '\n',
    ensures
        line_end(l + seq!['\n'] + rest, i) == l.len(),
    decreases l.len() - i,
{
    let t = l + seq!['\n'] + rest;
    if i < l.len() {
        assert(t[i] == l[i]);
        lemma_line_end_plain(l, rest, i + 1);
    } else {
        assert(t[i] == '\n');
    }
}

/// Splitting joined plain lines gives them back.
pub proof fn lemma_lines_joined(ls: Seq<Seq<char>>)
    requires
        forall|i: int| 0 <= i < ls.len() ==> plain_line(#[trigger] ls[i]),
    ensures
        lines(joined(ls)) == ls,
    decreases ls.len(),
{
    if ls.len() == 0 {
        assert(joined(ls) =~= Seq::<char>::empty());
        assert(lines(joined(ls)) =~= ls);
    } else {
        let l = ls[0];
        let rest = joined(ls.drop_first());
        let t = joined(ls);
        assert(t == l + seq!['\n'] + rest);
        assert(plain_line(ls[0]));
        lemma_line_end_plain(l, rest, 0);
        assert(t.subrange(0, l.len() as int) =~= l);
        assert forall|i: int| 0 <= i < ls.drop_first().len() implies plain_line(
            #[trigger] ls.drop_first()[i],
        ) by {
            assert(ls.drop_first()[i] == ls[i + 1]);
        }
        lemma_lines_joined(ls.drop_first());
        assert(l + seq!['\n'] + rest =~= (l + seq!['\n']) + rest);
        lemma_lines_shift(l + seq!['\n'], rest, 0);
        assert(lines_from(t, l.len() + 1int) == lines_from(rest, 0));
        assert(lines(t) =~= seq![l] + ls.drop_first());
        assert(seq![l] + ls.drop_first() =~= ls);
    }
}

// ---------------------------------------------------------------------------
// The lines of a written deck
// ---------------------------------------------------------------------------

/// The card of a device without its newline.
pub open spec fn card(d: DeviceModel) -> Seq<char> {
    d.name + spaced(d.nodes) + match d.model {
        Some(m) => seq![' '] + m,
        None => seq![],
    } + params_text(d.params)
}

/// The cards of a list of devices.
pub open spec fn cards(ds: Seq<DeviceModel>) -> Seq<Seq<char>> {
    ds.map_values(|d: DeviceModel| card(d))
}

/// The `.subckt` line of a definition.
pub open spec fn header_line(d: SubcktModel) -> Seq<char> {
    seq!['.', 's', 'u', 'b', 'c', 'k', 't', ' '] + d.name + spaced(d.ports) + params_text(d.params)
}

/// The `.ends` line of a definition.
pub open spec fn ends_line(d: SubcktModel) -> Seq<char> {
    seq!['.', 'e', 'n', 'd', 's', ' '] + d.name
}

/// The lines of a definition block.
pub open spec fn block_lines(d: SubcktModel) -> Seq<Seq<char>> {
    seq![header_line(d)] + cards(d.body) + seq![ends_line(d)]
}

/// The lines of a list of definition blocks.
pub open spec fn blocks_lines(defs: Seq<SubcktModel>) -> Seq<Seq<char>>
    decreases defs.len(),
{
    if defs.len() == 0 {
        seq![]
    } else {
        blocks_lines(defs.drop_last()) + block_lines(defs.last())
    }
}

/// The comment line that opens a written deck.
pub open spec fn comment_line() -> Seq<char> {
    "* Philis SPICE netlist (generated)"@
}

/// The `.end` line.
pub open spec fn end_line() -> Seq<char> {
    seq!['.', 'e', 'n', 'd']
}

/// The lines of the text of a netlist.
pub open spec fn deck_lines(nl: NetlistModel) -> Seq<Seq<char>> {
    seq![comment_line()] + nl.directives + blocks_lines(nl.defs) + cards(nl.top) + seq![end_line()]
}

proof fn lemma_joined_one(l: Seq<char>)
    ensures
        joined(seq![l]) == l + seq!['\n'],
{
    assert(seq![l].drop_first() =~= Seq::<Seq<char>>::empty());
    assert(joined(Seq::<Seq<char>>::empty()) =~= Seq::<char>::empty());
    assert(joined(seq![l]) =~= l + seq!['\n']);
}

proof fn lemma_joined_push(ls: Seq<Seq<char>>, l: Seq<char>)
    ensures
        joined(ls.push(l)) == joined(ls) + l + seq!['\n'],
{
    lemma_joined_concat(ls, seq![l]);
    lemma_joined_one(l);
    assert(ls.push(l) =~= ls + seq![l]);
    assert(joined(ls) + (l + seq!['\n']) =~= joined(ls) + l + seq!['\n']);
}

proof fn lemma_devices_text(ds: Seq<DeviceModel>)
    ensures
        devices_text(ds) == joined(cards(ds)),
    decreases ds.len(),
{
    if ds.len() == 0 {
        assert(cards(ds) =~= Seq::<Seq<char>>::empty());
    } else {
        lemma_devices_text(ds.drop_last());
        assert(cards(ds) =~= cards(ds.drop_last()).push(card(ds.last())));
        lemma_joined_push(cards(ds.drop_last()), card(ds.last()));
        assert(device_line(ds.last()) =~= card(ds.last()) + seq!['\n']);
        assert(devices_text(ds) =~= joined(cards(ds.drop_last())) + card(ds.last()) + seq!['\n']);
    }
}

proof fn lemma_lines_text(ls: Seq<Seq<char>>)
    ensures
        lines_text(ls) == joined(ls),
    decreases ls.len(),
{
    if ls.len() > 0 {
        lemma_lines_text(ls.drop_last());
        assert(ls =~= ls.drop_last().push(ls.last()));
        lemma_joined_push(ls.drop_last(), ls.last());
    } else {
        assert(joined(ls) =~= Seq::<char>::empty());
    }
}

proof fn lemma_defs_text(defs: Seq<SubcktModel>)
    ensures
        defs_text(defs) == joined(blocks_lines(defs)),
    decreases defs.len(),
{
    if defs.len() == 0 {
        assert(joined(blocks_lines(defs)) =~= Seq::<char>::empty());
    } else {
        let d = defs.last();
        lemma_defs_text(defs.drop_last());
        lemma_devices_text(d.body);
        lemma_joined_one(header_line(d));
        lemma_joined_one(ends_line(d));
        lemma_joined_concat(seq![header_line(d)], cards(d.body));
        lemma_joined_concat(seq![header_line(d)] + cards(d.body), seq![ends_line(d)]);
        lemma_joined_concat(blocks_lines(defs.drop_last()), block_lines(d));
        assert(crate::spice::subckt_text(d) =~= joined(block_lines(d)));
    }
}

/// The text of a netlist is its deck lines, each followed by a newline.
pub proof fn lemma_spice_text_lines(nl: NetlistModel)
    ensures
        spice_text(nl) == joined(deck_lines(nl)),
{
    reveal_strlit("* Philis SPICE netlist (generated)\n");
    reveal_strlit("* Philis SPICE netlist (generated)");
    lemma_joined_one(comment_line());
    assert(spice_header() =~= comment_line() + seq!['\n']);
    lemma_lines_text(nl.directives);
    lemma_defs_text(nl.defs);
    lemma_devices_text(nl.top);
    lemma_joined_one(end_line());
    let a = seq![comment_line()];
    let b = nl.directives;
    let c = blocks_lines(nl.defs);
    let d = cards(nl.top);
    let e = seq![end_line()];
    lemma_joined_concat(a, b);
    lemma_joined_concat(a + b, c);
    lemma_joined_concat(a + b + c, d);
    lemma_joined_concat(a + b + c + d, e);
    assert(spice_text(nl) =~= joined(a + b + c + d + e));
}

// ---------------------------------------------------------------------------
// Logical lines
// ---------------------------------------------------------------------------

/// A line read as one logical line exactly as written: a plain line that
/// starts and ends with a non-blank character, does not start with `*` or `+`
/// and holds no comment character (`;` or `$`).
pub open spec fn card_like(l: Seq<char>) -> bool {
    &&& plain_line(l)
    &&& l.len() > 0
    &&& !is_ws(l[0])
    &&& l[0] != '*'
    &&& l[0] != '+'
    &&& !is_ws(l.last())
    &&& forall|i: int| 0 <= i < l.len() ==> l[i] != ';' && l[i] != '$'
}

/// The logical lines after the first physical line, numbered from 2.
pub open spec fn numbered_from(ls: Seq<Seq<char>>, k: int) -> Seq<(int, Seq<char>)> {
    Seq::new((ls.len() - k) as nat, |i: int| (k + i + 1, ls[k + i]))
}

proof fn lemma_comment_cut_none(l: Seq<char>, i: int)
    requires
        0 <= i <= l.len(),
        forall|k: int| 0 <= k < l.len() ==> l[k] != ';' && l[k] != '$',
    ensures
        comment_cut(l, i) == l.len(),
    decreases l.len() - i,
{
    if i < l.len() {
        lemma_comment_cut_none(l, i + 1);
    }
}

proof fn lemma_strip_card_like(l: Seq<char>)
    requires
        card_like(l),
    ensures
        strip_comment(l) == l,
        trim_start(l) == l,
{
    lemma_comment_cut_none(l, 0);
    assert(l.take(l.len() as int) =~= l);
}

proof fn lemma_reassemble_cards(ls: Seq<Seq<char>>, k: int, acc: Seq<(int, Seq<char>)>)
    requires
        1 <= k <= ls.len(),
        forall|i: int| 1 <= i < ls.len() ==> card_like(#[trigger] ls[i]),
    ensures
        reassemble_from(ls, k, acc) == Ok::<Seq<(int, Seq<char>)>, SpiceErrorModel>(acc + numbered_from(ls, k)),
    decreases ls.len() - k,
{
    if k == ls.len() {
        assert(acc + numbered_from(ls, k) =~= acc);
    } else {
        lemma_strip_card_like(ls[k]);
        lemma_reassemble_cards(ls, k + 1, acc.push((k + 1, ls[k])));
        assert(acc.push((k + 1, ls[k])) + numbered_from(ls, k + 1) =~= acc + numbered_from(ls, k));
    }
}

/// The logical lines of joined lines that open with the comment line and go
/// on with card-like lines are those lines, numbered from 2.
pub proof fn lemma_reassemble_deck(ls: Seq<Seq<char>>)
    requires
        ls.len() > 0,
        ls[0] == comment_line(),
        forall|i: int| 1 <= i < ls.len() ==> card_like(#[trigger] ls[i]),
    ensures
        spec_reassemble(joined(ls)) == Ok::<Seq<(int, Seq<char>)>, SpiceErrorModel>(numbered_from(ls, 1)),
{
    reveal_strlit("* Philis SPICE netlist (generated)");
    let c = comment_line();
    assert(c[0] == '*');
    assert(plain_line(c));
    assert forall|i: int| 0 <= i < ls.len() implies plain_line(#[trigger] ls[i]) by {
        if i == 0 {
            assert(plain_line(c));
        } else {
            assert(card_like(ls[i]));
        }
    }
    lemma_lines_joined(ls);
    assert(trim_start(c) == c);
    assert(strip_comment(c) =~= Seq::<char>::empty());
    assert(trim_start(Seq::<char>::empty()) =~= Seq::<char>::empty());
    lemma_reassemble_cards(ls, 1, seq![]);
    assert(Seq::<(int, Seq<char>)>::empty() + numbered_from(ls, 1) =~= numbered_from(ls, 1));
}

// ---------------------------------------------------------------------------
// Characters of written lines
// ---------------------------------------------------------------------------

/// No comment character and no line break.
pub open spec fn no_bad(s: Seq<char>) -> bool {
    forall|i: int| 0 <= i < s.len() ==> s[i] != ';' && s[i] != '$' && s[i] != '\n'
}

/// A piece of a card: no white space and no comment character.
pub open spec fn piece(t: Seq<char>) -> bool {
    forall|i: int| 0 <= i < t.len() ==> !is_ws(t[i]) && t[i] != ';' && t[i] != '$'
}

/// A token of a card: a non-empty piece.
pub open spec fn token(t: Seq<char>) -> bool {
    t.len() > 0 && piece(t)
}

/// Every word is a token.
pub open spec fn all_tokens(ws: Seq<Seq<char>>) -> bool {
    forall|i: int| 0 <= i < ws.len() ==> token(#[trigger] ws[i])
}

/// Every key and value is a piece.
pub open spec fn all_pieces(ps: Seq<(Seq<char>, Seq<char>)>) -> bool {
    forall|i: int| #![trigger ps[i]] 0 <= i < ps.len() ==> piece(ps[i].0) && piece(ps[i].1)
}

pub(crate) proof fn lemma_no_bad_concat(a: Seq<char>, b: Seq<char>)
    requires
        no_bad(a),
        no_bad(b),
    ensures
        no_bad(a + b),
{
    assert forall|i: int| 0 <= i < (a + b).len() implies (a + b)[i] != ';' && (a + b)[i] != '$' && (a
        + b)[i] != '\n' by {
        if i < a.len() {
            assert((a + b)[i] == a[i]);
        } else {
            assert((a + b)[i] == b[i - a.len()]);
        }
    }
}

proof fn lemma_piece_no_bad(t: Seq<char>)
    requires
        piece(t),
    ensures
        no_bad(t),
{
    assert forall|i: int| 0 <= i < t.len() implies t[i] != ';' && t[i] != '$' && t[i] != '\n' by {
        assert(!is_ws(t[i]));
    }
}

/// Written words: free of comment characters and line breaks, beginning
/// with a space and ending on the last word's last character.
proof fn lemma_spaced(ws: Seq<Seq<char>>)
    requires
        all_tokens(ws),
    ensures
        no_bad(spaced(ws)),
        spaced(ws).len() > 0 ==> spaced(ws)[0] == ' ' && !is_ws(spaced(ws).last()),
        spaced(ws).len() == 0 <==> ws.len() == 0,
    decreases ws.len(),
{
    if ws.len() > 0 {
        let front = ws.drop_last();
        assert forall|i: int| 0 <= i < front.len() implies token(#[trigger] front[i]) by {
            assert(front[i] == ws[i]);
        }
        lemma_spaced(front);
        let w = ws.last();
        assert(token(ws[ws.len() - 1]));
        lemma_piece_no_bad(w);
        assert(no_bad(seq![' ']));
        lemma_no_bad_concat(spaced(front), seq![' ']);
        lemma_no_bad_concat(spaced(front) + seq![' '], w);
        assert(!is_ws(w[w.len() - 1]));
        assert(spaced(ws) == spaced(front) + seq![' '] + w);
    }
}

/// Written parameters: free of comment characters and line breaks, beginning
/// with a space and ending on a non-blank character.
proof fn lemma_params_text(ps: Seq<(Seq<char>, Seq<char>)>)
    requires
        all_pieces(ps),
    ensures
        no_bad(params_text(ps)),
        params_text(ps).len() > 0 ==> params_text(ps)[0] == ' ' && !is_ws(params_text(ps).last()),
        params_text(ps).len() == 0 <==> ps.len() == 0,
    decreases ps.len(),
{
    if ps.len() > 0 {
        let front = ps.drop_last();
        assert forall|i: int| #![trigger front[i]] 0 <= i < front.len() implies piece(front[i].0) && piece(
            front[i].1,
        ) by {
            assert(front[i] == ps[i]);
        }
        lemma_params_text(front);
        let p = ps.last();
        assert(piece(ps[ps.len() - 1].0) && piece(ps[ps.len() - 1].1));
        lemma_piece_no_bad(p.0);
        lemma_piece_no_bad(p.1);
        assert(no_bad(seq![' ']));
        assert(no_bad(seq!['=']));
        lemma_no_bad_concat(params_text(front), seq![' ']);
        lemma_no_bad_concat(params_text(front) + seq![' '], p.0);
        lemma_no_bad_concat(params_text(front) + seq![' '] + p.0, seq!['=']);
        lemma_no_bad_concat(params_text(front) + seq![' '] + p.0 + seq!['='], p.1);
        let t = params_text(ps);
        assert(t == params_text(front) + seq![' '] + p.0 + seq!['='] + p.1);
        if p.1.len() > 0 {
            assert(!is_ws(p.1[p.1.len() - 1]));
            assert(t.last() == p.1.last());
        } else {
            assert(t.last() == '=');
        }
    }
}

/// A device whose card is read back as one device card.
pub open spec fn device_ok(d: DeviceModel) -> bool {
    &&& token(d.name)
    &&& d.name[0] != '.'
    &&& d.name[0] != '*'
    &&& d.name[0] != '+'
    &&& all_tokens(d.nodes)
    &&& (d.model matches Some(m) ==> token(m))
    &&& all_pieces(d.params)
}

/// Every device is read back as one device card.
pub open spec fn devices_ok(ds: Seq<DeviceModel>) -> bool {
    forall|i: int| 0 <= i < ds.len() ==> device_ok(#[trigger] ds[i])
}

/// A definition whose block is read back as one definition.
pub open spec fn def_ok(d: SubcktModel) -> bool {
    &&& token(d.name)
    &&& all_tokens(d.ports)
    &&& all_pieces(d.params)
    &&& devices_ok(d.body)
}

/// A directive read back as itself: it starts with `.`, ends on a
/// non-blank character, holds no comment character or line break, and is
/// not a `.subckt`, `.ends` or `.eom` line.
pub open spec fn directive_ok(l: Seq<char>) -> bool {
    &&& l.len() > 0
    &&& l[0] == '.'
    &&& !is_ws(l.last())
    &&& no_bad(l)
    &&& !has_prefix(lower_seq(l), kw_subckt())
    &&& !has_prefix(lower_seq(l), kw_ends())
    &&& !has_prefix(lower_seq(l), kw_eom())
}

proof fn lemma_no_bad_card_like(l: Seq<char>)
    requires
        l.len() > 0,
        no_bad(l),
        !is_ws(l[0]),
        l[0] != '*',
        l[0] != '+',
        !is_ws(l.last()),
    ensures
        card_like(l),
{
    assert(l.last() != '\r');
}

proof fn lemma_card_like_card(d: DeviceModel)
    requires
        device_ok(d),
    ensures
        card_like(card(d)),
        card(d)[0] == d.name[0],
{
    lemma_spaced(d.nodes);
    lemma_params_text(d.params);
    lemma_piece_no_bad(d.name);
    let sp = spaced(d.nodes);
    let mt = match d.model {
        Some(m) => seq![' '] + m,
        None => seq![],
    };
    let pt = params_text(d.params);
    assert(no_bad(mt)) by {
        match d.model {
            Some(m) => {
                lemma_piece_no_bad(m);
                assert(no_bad(seq![' ']));
                lemma_no_bad_concat(seq![' '], m);
            },
            None => {},
        }
    }
    lemma_no_bad_concat(d.name, sp);
    lemma_no_bad_concat(d.name + sp, mt);
    lemma_no_bad_concat(d.name + sp + mt, pt);
    let c = card(d);
    assert(c == d.name + sp + mt + pt);
    assert(!is_ws(d.name[0]));
    assert(!is_ws(d.name[d.name.len() - 1]));
    assert(!is_ws(c.last())) by {
        if pt.len() > 0 {
            assert(c.last() == pt.last());
        } else if mt.len() > 0 {
            let m = d.model->0;
            assert(!is_ws(m[m.len() - 1]));
            assert(c.last() == mt.last());
        } else if sp.len() > 0 {
            assert(c.last() == sp.last());
        } else {
            assert(c.last() == d.name.last());
        }
    }
    lemma_no_bad_card_like(c);
}

proof fn lemma_card_like_header(d: SubcktModel)
    requires
        def_ok(d),
    ensures
        card_like(header_line(d)),
        card_like(ends_line(d)),
{
    lemma_spaced(d.ports);
    lemma_params_text(d.params);
    lemma_piece_no_bad(d.name);
    let kw = seq!['.', 's', 'u', 'b', 'c', 'k', 't', ' '];
    assert(no_bad(kw));
    let sp = spaced(d.ports);
    let pt = params_text(d.params);
    lemma_no_bad_concat(kw, d.name);
    lemma_no_bad_concat(kw + d.name, sp);
    lemma_no_bad_concat(kw + d.name + sp, pt);
    let h = header_line(d);
    assert(h == kw + d.name + sp + pt);
    assert(!is_ws(d.name[d.name.len() - 1]));
    assert(!is_ws(h.last())) by {
        if pt.len() > 0 {
            assert(h.last() == pt.last());
        } else if sp.len() > 0 {
            assert(h.last() == sp.last());
        } else {
            assert(h.last() == d.name.last());
        }
    }
    assert(h[0] == '.');
    lemma_no_bad_card_like(h);
    let ek = seq!['.', 'e', 'n', 'd', 's', ' '];
    assert(no_bad(ek));
    lemma_no_bad_concat(ek, d.name);
    let e = ends_line(d);
    assert(e.last() == d.name.last());
    assert(e[0] == '.');
    lemma_no_bad_card_like(e);
}

// ---------------------------------------------------------------------------
// Reading logical lines
// ---------------------------------------------------------------------------

/// The reader run over logical lines while every line lets it go on; `None`
/// when one stops it or fails.
pub open spec fn run_lines(ts: Seq<Seq<char>>, nl: NetlistModel, open: Option<int>) -> Option<
    (NetlistModel, Option<int>),
>
    decreases ts.len(),
{
    if ts.len() == 0 {
        Some((nl, open))
    } else {
        match parse_line(nl, open, 0, ts[0]) {
            LineOutcome::Next(n2, o2) => run_lines(ts.drop_first(), n2, o2),
            _ => None,
        }
    }
}

proof fn lemma_header_lineno(rest: Seq<char>, a: int, b: int)
    ensures
        spec_header(rest, a) is Ok ==> spec_header(rest, b) == spec_header(rest, a),
{
}

proof fn lemma_parse_line_lineno(nl: NetlistModel, open: Option<int>, a: int, b: int, l: Seq<char>)
    ensures
        parse_line(nl, open, a, l) is Next ==> parse_line(nl, open, b, l) == parse_line(nl, open, a, l),
{
    let line = trim(l);
    if line.len() > 0 && line[0] == '.' {
        lemma_header_lineno(line.skip(7), a, b);
    }
}

proof fn lemma_parse_from_run(
    ls: Seq<(int, Seq<char>)>,
    k: int,
    ts: Seq<Seq<char>>,
    nl: NetlistModel,
    open: Option<int>,
)
    requires
        0 <= k,
        k + ts.len() <= ls.len(),
        forall|i: int| 0 <= i < ts.len() ==> #[trigger] ls[k + i].1 == ts[i],
        run_lines(ts, nl, open) is Some,
    ensures
        parse_from(ls, k, nl, open) == parse_from(
            ls,
            k + ts.len(),
            run_lines(ts, nl, open).unwrap().0,
            run_lines(ts, nl, open).unwrap().1,
        ),
    decreases ts.len(),
{
    if ts.len() > 0 {
        assert(ls[k + 0].1 == ts[0]);
        lemma_parse_line_lineno(nl, open, 0, ls[k].0, ts[0]);
        match parse_line(nl, open, 0, ts[0]) {
            LineOutcome::Next(n2, o2) => {
                assert forall|i: int| 0 <= i < ts.drop_first().len() implies #[trigger] ls[(k + 1) + i].1
                    == ts.drop_first()[i] by {
                    assert(ls[k + (i + 1)].1 == ts[i + 1]);
                }
                lemma_parse_from_run(ls, k + 1, ts.drop_first(), n2, o2);
            },
            _ => {},
        }
    }
}

proof fn lemma_run_concat(a: Seq<Seq<char>>, b: Seq<Seq<char>>, nl: NetlistModel, open: Option<int>)
    ensures
        run_lines(a + b, nl, open) == match run_lines(a, nl, open) {
            Some((n, o)) => run_lines(b, n, o),
            None => None,
        },
    decreases a.len(),
{
    if a.len() == 0 {
        assert(a + b =~= b);
    } else {
        assert((a + b)[0] == a[0]);
        assert((a + b).drop_first() =~= a.drop_first() + b);
        match parse_line(nl, open, 0, a[0]) {
            LineOutcome::Next(n2, o2) => {
                lemma_run_concat(a.drop_first(), b, n2, o2);
            },
            _ => {},
        }
    }
}

proof fn lemma_trim_solid(l: Seq<char>)
    requires
        l.len() > 0,
        !is_ws(l[0]),
        !is_ws(l.last()),
    ensures
        trim(l) == l,
{
    assert(trim_start(l) == l);
}

/// A directive line is recorded as is.
proof fn lemma_line_directive(nl: NetlistModel, l: Seq<char>)
    requires
        directive_ok(l),
    ensures
        parse_line(nl, None, 0, l) == LineOutcome::Next(with_directive(nl, l), None),
{
    lemma_trim_solid(l);
}

/// A card is read as one device, in the open definition or at the top level.
proof fn lemma_line_card(nl: NetlistModel, open: Option<int>, d: DeviceModel)
    requires
        device_ok(d),
    ensures
        parse_line(nl, open, 0, card(d)) == LineOutcome::Next(
            match open {
                Some(i) => with_body_device(nl, i, spec_parse_device(card(d))),
                None => with_top_device(nl, spec_parse_device(card(d))),
            },
            open,
        ),
{
    lemma_card_like_card(d);
    lemma_trim_solid(card(d));
}

proof fn lemma_word_end_token(s: Seq<char>, name: Seq<char>, i: int)
    requires
        token(name),
        s.len() >= 1 + name.len(),
        forall|k: int| 0 <= k < name.len() ==> s[1 + k] == name[k],
        s.len() == 1 + name.len() || is_ws(s[1 + name.len() as int]),
        1 <= i <= 1 + name.len(),
    ensures
        word_end(s, i) == 1 + name.len(),
    decreases 1 + name.len() - i,
{
    if i < 1 + name.len() {
        assert(s[1 + (i - 1)] == name[i - 1]);
        assert(!is_ws(name[i - 1]));
        lemma_word_end_token(s, name, i + 1);
    }
}

/// The first token after a space is the name that follows it.
proof fn lemma_first_token(name: Seq<char>, tail: Seq<char>)
    requires
        token(name),
        tail.len() == 0 || tail[0] == ' ',
    ensures
        tokens(seq![' '] + name + tail).len() > 0,
        tokens(seq![' '] + name + tail)[0] == name,
{
    let s = seq![' '] + name + tail;
    assert(is_ws(s[0]));
    assert(s[1] == name[0]);
    assert(!is_ws(name[0]));
    assert forall|k: int| 0 <= k < name.len() implies s[1 + k] == name[k] by {}
    if tail.len() > 0 {
        assert(s[1 + name.len() as int] == tail[0]);
    }
    lemma_word_end_token(s, name, 1);
    lemma_word_end(s, 1);
    assert(s.subrange(1, 1 + name.len() as int) =~= name);
    assert(tokens_from(s, 0) == tokens_from(s, 1));
}

/// The definition a written `.subckt` line declares.
pub open spec fn header_def(d: SubcktModel) -> SubcktModel {
    let toks = tokens(header_line(d).skip(7));
    SubcktModel { name: d.name, ports: header_ports(toks.skip(1)), params: kv_params(toks.skip(1)), body: seq![] }
}

proof fn lemma_find_def_absent(defs: Seq<SubcktModel>, name: Seq<char>, i: int)
    requires
        0 <= i <= defs.len(),
        forall|k: int| 0 <= k < defs.len() ==> #[trigger] defs[k].name != name,
    ensures
        find_def(defs, name, i) == defs.len(),
    decreases defs.len() - i,
{
    if i < defs.len() {
        lemma_find_def_absent(defs, name, i + 1);
    }
}

/// A `.subckt` line opens a new definition at the end.
proof fn lemma_line_header(nl: NetlistModel, d: SubcktModel)
    requires
        def_ok(d),
        forall|k: int| 0 <= k < nl.defs.len() ==> #[trigger] nl.defs[k].name != d.name,
    ensures
        parse_line(nl, None, 0, header_line(d)) == LineOutcome::Next(
            NetlistModel { defs: nl.defs.push(header_def(d)), ..nl },
            Some(nl.defs.len() as int),
        ),
{
    let h = header_line(d);
    lemma_card_like_header(d);
    lemma_trim_solid(h);
    assert(lower_seq(h).take(7) =~= kw_subckt());
    lemma_spaced(d.ports);
    lemma_params_text(d.params);
    let tail = spaced(d.ports) + params_text(d.params);
    assert(tail.len() > 0 ==> tail[0] == ' ') by {
        if spaced(d.ports).len() > 0 {
            assert(tail[0] == spaced(d.ports)[0]);
        } else if tail.len() > 0 {
            assert(tail =~= params_text(d.params));
        }
    }
    assert(h.skip(7) =~= seq![' '] + d.name + tail);
    lemma_first_token(d.name, tail);
    lemma_find_def_absent(nl.defs, d.name, 0);
    let sub = spec_header(h.skip(7), 0)->Ok_0;
    assert(sub == header_def(d));
    assert(with_def(nl, header_def(d)) == NetlistModel { defs: nl.defs.push(header_def(d)), ..nl });
}

/// An `.ends` line closes the open definition.
proof fn lemma_line_ends(nl: NetlistModel, i: int, d: SubcktModel)
    requires
        def_ok(d),
    ensures
        parse_line(nl, Some(i), 0, ends_line(d)) == LineOutcome::Next(nl, None),
{
    let e = ends_line(d);
    lemma_card_like_header(d);
    lemma_trim_solid(e);
    let low = lower_seq(e);
    assert(low[1] == 'e');
    assert(!has_prefix(low, kw_subckt())) by {
        if has_prefix(low, kw_subckt()) {
            assert(low.take(7)[1] == kw_subckt()[1]);
        }
    }
    assert(low.take(5) =~= kw_ends());
}

/// The `.end` line is read as a directive.
proof fn lemma_line_dot_end(nl: NetlistModel, lineno: int)
    ensures
        parse_line(nl, None, lineno, end_line()) == LineOutcome::Next(with_directive(nl, end_line()), None),
{
    let e = end_line();
    assert(trim_start(e) == e);
    assert(trim(e) == e);
    let low = lower_seq(e);
    assert(low =~= e);
    assert(!has_prefix(low, kw_eom())) by {
        if has_prefix(low, kw_eom()) {
            assert(low.take(4)[2] == kw_eom()[2]);
        }
    }
    assert(!has_prefix(low, kw_ends()));
    assert(!has_prefix(low, kw_subckt()));
}

/// The devices that the cards of `ds` are read back as.
pub open spec fn reparsed(ds: Seq<DeviceModel>) -> Seq<DeviceModel> {
    ds.map_values(|d: DeviceModel| spec_parse_device(card(d)))
}

/// The definition that the block of `d` is read back as.
pub open spec fn reparsed_def(d: SubcktModel) -> SubcktModel {
    SubcktModel { body: reparsed(d.body), ..header_def(d) }
}

/// The netlist that the text of `nl` is read back as: the closing `.end`
/// line is read as one more directive.
pub open spec fn reparsed_netlist(nl: NetlistModel) -> NetlistModel {
    NetlistModel {
        top: reparsed(nl.top),
        defs: nl.defs.map_values(|d: SubcktModel| reparsed_def(d)),
        directives: nl.directives.push(end_line()),
    }
}

proof fn lemma_run_directives(ls: Seq<Seq<char>>, nl: NetlistModel)
    requires
        forall|i: int| 0 <= i < ls.len() ==> directive_ok(#[trigger] ls[i]),
    ensures
        run_lines(ls, nl, None) == Some((NetlistModel { directives: nl.directives + ls, ..nl }, None::<int>)),
    decreases ls.len(),
{
    if ls.len() == 0 {
        assert(nl.directives + ls =~= nl.directives);
        assert(nl == NetlistModel { directives: nl.directives + ls, ..nl });
    } else {
        assert(directive_ok(ls[0]));
        lemma_line_directive(nl, ls[0]);
        let n2 = with_directive(nl, ls[0]);
        assert forall|i: int| 0 <= i < ls.drop_first().len() implies directive_ok(#[trigger] ls.drop_first()[i]) by {
            assert(ls.drop_first()[i] == ls[i + 1]);
        }
        lemma_run_directives(ls.drop_first(), n2);
        assert(n2.directives + ls.drop_first() =~= nl.directives + ls);
    }
}

proof fn lemma_run_top_cards(ds: Seq<DeviceModel>, nl: NetlistModel)
    requires
        devices_ok(ds),
    ensures
        run_lines(cards(ds), nl, None) == Some((NetlistModel { top: nl.top + reparsed(ds), ..nl }, None::<int>)),
    decreases ds.len(),
{
    if ds.len() == 0 {
        assert(cards(ds) =~= Seq::<Seq<char>>::empty());
        assert(nl.top + reparsed(ds) =~= nl.top);
        assert(nl == NetlistModel { top: nl.top + reparsed(ds), ..nl });
    } else {
        assert(device_ok(ds[0]));
        lemma_line_card(nl, None, ds[0]);
        let n2 = with_top_device(nl, spec_parse_device(card(ds[0])));
        assert(cards(ds)[0] == card(ds[0]));
        assert(cards(ds).drop_first() =~= cards(ds.drop_first()));
        assert forall|i: int| 0 <= i < ds.drop_first().len() implies device_ok(#[trigger] ds.drop_first()[i]) by {
            assert(ds.drop_first()[i] == ds[i + 1]);
        }
        lemma_run_top_cards(ds.drop_first(), n2);
        assert(n2.top + reparsed(ds.drop_first()) =~= nl.top + reparsed(ds));
    }
}

/// `nl` with devices appended to the body of definition `i`.
pub open spec fn with_body(nl: NetlistModel, i: int, extra: Seq<DeviceModel>) -> NetlistModel {
    NetlistModel {
        defs: nl.defs.update(i, SubcktModel { body: nl.defs[i].body + extra, ..nl.defs[i] }),
        ..nl
    }
}

proof fn lemma_run_body_cards(ds: Seq<DeviceModel>, nl: NetlistModel, i: int)
    requires
        devices_ok(ds),
        0 <= i < nl.defs.len(),
    ensures
        run_lines(cards(ds), nl, Some(i)) == Some((with_body(nl, i, reparsed(ds)), Some(i))),
    decreases ds.len(),
{
    if ds.len() == 0 {
        assert(cards(ds) =~= Seq::<Seq<char>>::empty());
        assert(nl.defs[i].body + reparsed(ds) =~= nl.defs[i].body);
        assert(nl.defs.update(i, SubcktModel { body: nl.defs[i].body + reparsed(ds), ..nl.defs[i] }) =~= nl.defs);
    } else {
        assert(device_ok(ds[0]));
        lemma_line_card(nl, Some(i), ds[0]);
        let p = spec_parse_device(card(ds[0]));
        let n2 = with_body_device(nl, i, p);
        assert(cards(ds)[0] == card(ds[0]));
        assert(cards(ds).drop_first() =~= cards(ds.drop_first()));
        assert forall|k: int| 0 <= k < ds.drop_first().len() implies device_ok(#[trigger] ds.drop_first()[k]) by {
            assert(ds.drop_first()[k] == ds[k + 1]);
        }
        lemma_run_body_cards(ds.drop_first(), n2, i);
        assert(n2.defs[i].body + reparsed(ds.drop_first()) =~= nl.defs[i].body + reparsed(ds));
        assert(with_body(n2, i, reparsed(ds.drop_first())).defs =~= with_body(nl, i, reparsed(ds)).defs);
    }
}

proof fn lemma_run_block(d: SubcktModel, nl: NetlistModel)
    requires
        def_ok(d),
        forall|k: int| 0 <= k < nl.defs.len() ==> #[trigger] nl.defs[k].name != d.name,
    ensures
        run_lines(block_lines(d), nl, None) == Some(
            (NetlistModel { defs: nl.defs.push(reparsed_def(d)), ..nl }, None::<int>),
        ),
{
    let h = seq![header_line(d)];
    let b = cards(d.body);
    let e = seq![ends_line(d)];
    lemma_line_header(nl, d);
    let n1 = NetlistModel { defs: nl.defs.push(header_def(d)), ..nl };
    let i = nl.defs.len() as int;
    assert(h.drop_first() =~= Seq::<Seq<char>>::empty());
    assert(h[0] == header_line(d));
    assert(run_lines(Seq::<Seq<char>>::empty(), n1, Some(i)) == Some((n1, Some(i))));
    assert(run_lines(h, nl, None) == Some((n1, Some(i))));
    lemma_run_body_cards(d.body, n1, i);
    let n2 = with_body(n1, i, reparsed(d.body));
    lemma_line_ends(n2, i, d);
    assert(e.drop_first() =~= Seq::<Seq<char>>::empty());
    assert(e[0] == ends_line(d));
    assert(run_lines(Seq::<Seq<char>>::empty(), n2, None) == Some((n2, None::<int>)));
    assert(run_lines(e, n2, Some(i)) == Some((n2, None::<int>)));
    lemma_run_concat(h, b, nl, None);
    lemma_run_concat(h + b, e, nl, None);
    assert(block_lines(d) == h + b + e);
    assert(Seq::<DeviceModel>::empty() + reparsed(d.body) =~= reparsed(d.body));
    assert(n2.defs =~= nl.defs.push(reparsed_def(d)));
}

/// No two definitions share a name.
pub open spec fn distinct_names(defs: Seq<SubcktModel>) -> bool {
    forall|i: int, j: int| 0 <= i < j < defs.len() ==> defs[i].name != defs[j].name
}

proof fn lemma_run_blocks(defs: Seq<SubcktModel>, nl: NetlistModel)
    requires
        forall|i: int| 0 <= i < defs.len() ==> def_ok(#[trigger] defs[i]),
        distinct_names(defs),
        forall|k: int, j: int| 0 <= k < nl.defs.len() && 0 <= j < defs.len() ==> nl.defs[k].name != defs[j].name,
    ensures
        run_lines(blocks_lines(defs), nl, None) == Some(
            (
                NetlistModel { defs: nl.defs + defs.map_values(|d: SubcktModel| reparsed_def(d)), ..nl },
                None::<int>,
            ),
        ),
    decreases defs.len(),
{
    let f = |d: SubcktModel| reparsed_def(d);
    if defs.len() == 0 {
        assert(blocks_lines(defs) =~= Seq::<Seq<char>>::empty());
        assert(nl.defs + defs.map_values(f) =~= nl.defs);
        assert(nl == NetlistModel { defs: nl.defs + defs.map_values(f), ..nl });
    } else {
        let front = defs.drop_last();
        let last = defs.last();
        assert forall|i: int| 0 <= i < front.len() implies def_ok(#[trigger] front[i]) by {
            assert(front[i] == defs[i]);
        }
        assert forall|k: int, j: int| 0 <= k < nl.defs.len() && 0 <= j < front.len() implies nl.defs[k].name
            != front[j].name by {
            assert(front[j] == defs[j]);
        }
        lemma_run_blocks(front, nl);
        let n1 = NetlistModel { defs: nl.defs + front.map_values(f), ..nl };
        assert(def_ok(defs[defs.len() - 1]));
        assert forall|k: int| 0 <= k < n1.defs.len() implies #[trigger] n1.defs[k].name != last.name by {
            if k < nl.defs.len() {
                assert(n1.defs[k] == nl.defs[k]);
            } else {
                let j = k - nl.defs.len();
                assert(n1.defs[k] == reparsed_def(front[j]));
                assert(front[j] == defs[j]);
            }
        }
        lemma_run_block(last, n1);
        lemma_run_concat(blocks_lines(front), block_lines(last), nl, None);
        assert(n1.defs.push(reparsed_def(last)) =~= nl.defs + defs.map_values(f));
    }
}

/// A netlist whose text reads back in the same shape: its directives,
/// definitions and cards are made of plain tokens, and definition names are
/// distinct.
pub open spec fn writable_netlist(nl: NetlistModel) -> bool {
    &&& forall|i: int| 0 <= i < nl.directives.len() ==> directive_ok(#[trigger] nl.directives[i])
    &&& forall|i: int| 0 <= i < nl.defs.len() ==> def_ok(#[trigger] nl.defs[i])
    &&& distinct_names(nl.defs)
    &&& devices_ok(nl.top)
}

proof fn lemma_cards_card_like(ds: Seq<DeviceModel>)
    requires
        devices_ok(ds),
    ensures
        forall|i: int| 0 <= i < cards(ds).len() ==> card_like(#[trigger] cards(ds)[i]),
{
    assert forall|i: int| 0 <= i < cards(ds).len() implies card_like(#[trigger] cards(ds)[i]) by {
        assert(device_ok(ds[i]));
        lemma_card_like_card(ds[i]);
    }
}

proof fn lemma_blocks_card_like(defs: Seq<SubcktModel>)
    requires
        forall|i: int| 0 <= i < defs.len() ==> def_ok(#[trigger] defs[i]),
    ensures
        forall|i: int| 0 <= i < blocks_lines(defs).len() ==> card_like(#[trigger] blocks_lines(defs)[i]),
    decreases defs.len(),
{
    if defs.len() > 0 {
        let front = defs.drop_last();
        let d = defs.last();
        assert forall|i: int| 0 <= i < front.len() implies def_ok(#[trigger] front[i]) by {
            assert(front[i] == defs[i]);
        }
        lemma_blocks_card_like(front);
        assert(def_ok(defs[defs.len() - 1]));
        lemma_card_like_header(d);
        lemma_cards_card_like(d.body);
        let bl = block_lines(d);
        assert forall|i: int| 0 <= i < bl.len() implies card_like(#[trigger] bl[i]) by {
            if i == 0 {
                assert(bl[i] == header_line(d));
            } else if i < 1 + cards(d.body).len() {
                assert(bl[i] == cards(d.body)[i - 1]);
            } else {
                assert(bl[i] == ends_line(d));
            }
        }
        let all = blocks_lines(defs);
        assert forall|i: int| 0 <= i < all.len() implies card_like(#[trigger] all[i]) by {
            if i < blocks_lines(front).len() {
                assert(all[i] == blocks_lines(front)[i]);
            } else {
                assert(all[i] == bl[i - blocks_lines(front).len()]);
            }
        }
    }
}

/// Parsing the text [`spice_text`] writes reads back every directive as
/// itself followed by the closing `.end`, every definition under its name
/// with its cards in order, and every top-level card in order: the netlist
/// [`reparsed_netlist`]. It holds for every netlist whose names, nodes,
/// models and parameters are plain tokens (no white space, `;` or `$`), whose
/// directives are plain `.` lines other than `.subckt`/`.ends`/`.eom`, whose
/// device names do not start
/// with `.`, `*` or `+`, and whose definition names are distinct.
pub proof fn lemma_parse_spice_text(nl: NetlistModel)
    requires
        writable_netlist(nl),
    ensures
        spec_parse(spice_text(nl)) == Ok::<NetlistModel, SpiceErrorModel>(reparsed_netlist(nl)),
{
    let ls = deck_lines(nl);
    lemma_spice_text_lines(nl);
    let dirs = nl.directives;
    let blocks = blocks_lines(nl.defs);
    let tops = cards(nl.top);
    let body = dirs + blocks + tops;
    assert(ls == seq![comment_line()] + body + seq![end_line()]);
    // Every line after the comment is read as written.
    lemma_blocks_card_like(nl.defs);
    lemma_cards_card_like(nl.top);
    assert forall|i: int| 1 <= i < ls.len() implies card_like(#[trigger] ls[i]) by {
        let j = i - 1;
        if j < dirs.len() {
            assert(ls[i] == dirs[j]);
            assert(directive_ok(dirs[j]));
            assert(trim_start(dirs[j]) == dirs[j]);
        } else if j < dirs.len() + blocks.len() {
            assert(ls[i] == blocks[j - dirs.len()]);
        } else if j < body.len() {
            assert(ls[i] == tops[j - dirs.len() - blocks.len()]);
        } else {
            assert(ls[i] == end_line());
            assert(no_bad(end_line()));
        }
    }
    lemma_reassemble_deck(ls);
    let numbered = numbered_from(ls, 1);
    // Running over the directives, the blocks and the top-level cards.
    let e = empty_netlist();
    lemma_run_directives(dirs, e);
    let n1 = NetlistModel { directives: e.directives + dirs, ..e };
    assert forall|k: int, j: int| 0 <= k < n1.defs.len() && 0 <= j < nl.defs.len() implies n1.defs[k].name
        != nl.defs[j].name by {}
    lemma_run_blocks(nl.defs, n1);
    let n2 = NetlistModel { defs: n1.defs + nl.defs.map_values(|d: SubcktModel| reparsed_def(d)), ..n1 };
    lemma_run_top_cards(nl.top, n2);
    let n3 = NetlistModel { top: n2.top + reparsed(nl.top), ..n2 };
    lemma_run_concat(dirs, blocks, e, None);
    lemma_run_concat(dirs + blocks, tops, e, None);
    assert(run_lines(body, e, None) == Some((n3, None::<int>)));
    assert forall|i: int| 0 <= i < body.len() implies #[trigger] numbered[0 + i].1 == body[i] by {
        assert(ls[1 + i] == body[i]);
    }
    lemma_parse_from_run(numbered, 0, body, e, None);
    let last = body.len() as int;
    assert(numbered[last].1 == end_line());
    lemma_line_dot_end(n3, numbered[last].0);
    let n4 = with_directive(n3, end_line());
    assert(parse_from(numbered, last + 1, n4, None) == Ok::<NetlistModel, SpiceErrorModel>(n4));
    assert(n4 =~= reparsed_netlist(nl));
}

proof fn lemma_body_total_reparsed(defs: Seq<SubcktModel>)
    ensures
        body_total(defs.map_values(|d: SubcktModel| reparsed_def(d))) == body_total(defs),
        def_names(defs.map_values(|d: SubcktModel| reparsed_def(d))) == def_names(defs),
    decreases defs.len(),
{
    let f = |d: SubcktModel| reparsed_def(d);
    let m = defs.map_values(f);
    if defs.len() > 0 {
        lemma_body_total_reparsed(defs.drop_last());
        assert(m.drop_last() =~= defs.drop_last().map_values(f));
        assert(m.last() == reparsed_def(defs.last()));
    }
    assert(def_names(m) =~= def_names(defs));
}

/// Reading back a written deck keeps the number of devices, the names of the
/// definitions in order, the number of top-level devices and the directives,
/// which come back followed by the closing `.end` (for every netlist
/// [`lemma_parse_spice_text`] covers).
pub proof fn lemma_round_trip_counts(nl: NetlistModel)
    requires
        writable_netlist(nl),
    ensures
        spec_parse(spice_text(nl)) is Ok,
        device_total(spec_parse(spice_text(nl))->Ok_0) == device_total(nl),
        def_names(spec_parse(spice_text(nl))->Ok_0.defs) == def_names(nl.defs),
        spec_parse(spice_text(nl))->Ok_0.top.len() == nl.top.len(),
        spec_parse(spice_text(nl))->Ok_0.directives == nl.directives.push(end_line()),
{
    lemma_parse_spice_text(nl);
    lemma_body_total_reparsed(nl.defs);
}

} // verus!
