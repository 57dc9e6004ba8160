//! What the SPICE reader returns can be written back: every netlist that
//! [`SpiceNetlist::parse`](crate::spice::SpiceNetlist::parse) yields, and
//! every selection or promotion of one, meets
//! [`writable_netlist`](crate::roundtrip::writable_netlist), so the
//! write-then-read law of [`crate::roundtrip`] holds of it.
use vstd::prelude::*;

use crate::roundtrip::{
    end_line, lemma_round_trip_counts, all_pieces, all_tokens, def_ok, device_ok, devices_ok, directive_ok, distinct_names, no_bad,
    piece, token, writable_netlist,
};
use crate::spice::{
    comment_cut, eq_index, find_def, lemma_find_def, first_kv, fixed_card, fixed_nodes, free_card, header_ports,
    is_kv, kind_of, kv_pair, kv_params, kw_ends, kw_eom, kw_subckt, lead_end, parse_from,
    parse_line, positionals, promoted, reassemble_from, spec_header, spec_parse,
    spec_parse_device, spec_reassemble, strip_comment, spice_text, device_total, def_names, with_body_device, with_def,
    with_directive, with_top_device, LineOutcome, NetlistModel, SpiceErrorModel, SubcktModel,
};
use crate::text::{
    has_prefix, is_ws, lemma_line_end, lemma_word_end, line_end, lines, lines_from, lower_seq,
    tokens, tokens_from, trim, trim_end, trim_start, word_end,
};

verus! {

// ---------------------------------------------------------------------------
// Characters of trimmed and cut text
// ---------------------------------------------------------------------------

/// No line break.
pub open spec fn no_nl(l: Seq<char>) -> bool {
    forall|i: int| 0 <= i < l.len() ==> l[i] != '\n'
}

proof fn lemma_trim_start_skip(s: Seq<char>)
    ensures
        trim_start(s).len() <= s.len(),
        trim_start(s) == s.skip(s.len() - trim_start(s).len()),
        trim_start(s).len() > 0 ==> !is_ws(trim_start(s)[0]),
    decreases s.len(),
{
    if s.len() > 0 && is_ws(s[0]) {
        let t = trim_start(s.drop_first());
        lemma_trim_start_skip(s.drop_first());
        let n1 = s.len() - 1 - t.len();
        assert(s.drop_first().skip(n1) =~= s.skip(n1 + 1));
    } else {
        assert(s.skip(0) =~= s);
    }
}

proof fn lemma_trim_end_take(s: Seq<char>)
    ensures
        trim_end(s).len() <= s.len(),
        trim_end(s) == s.take(trim_end(s).len() as int),
        trim_end(s).len() > 0 ==> !is_ws(trim_end(s).last()),
    decreases s.len(),
{
    if s.len() > 0 && is_ws(s.last()) {
        lemma_trim_end_take(s.drop_last());
        let t = trim_end(s.drop_last());
        assert(s.drop_last().take(t.len() as int) =~= s.take(t.len() as int));
    } else {
        assert(s.take(s.len() as int) =~= s);
    }
}

/// A slice of text free of `;`, `$` and line breaks is free of them too.
proof fn lemma_no_bad_sub(s: Seq<char>, i: int, j: int)
    requires
        no_bad(s),
        0 <= i <= j <= s.len(),
    ensures
        no_bad(s.subrange(i, j)),
{
    assert forall|k: int| 0 <= k < s.subrange(i, j).len() implies s.subrange(i, j)[k] != ';'
        && s.subrange(i, j)[k] != '$' && s.subrange(i, j)[k] != '\n' by {
        assert(s.subrange(i, j)[k] == s[i + k]);
    }
}

/// Trimming keeps text free of `;`, `$` and line breaks, and leaves it
/// starting and ending on non-blank characters; when the text has a
/// non-blank character, the trimmed text opens with the first of them.
proof fn lemma_trim_facts(s: Seq<char>)
    ensures
        no_bad(s) ==> no_bad(trim(s)),
        trim(s).len() > 0 ==> !is_ws(trim(s)[0]) && !is_ws(trim(s).last()),
        trim_start(s).len() > 0 ==> trim(s).len() > 0 && trim(s)[0] == trim_start(s)[0],
{
    lemma_trim_start_skip(s);
    let a = trim_start(s);
    lemma_trim_end_take(a);
    let t = trim(s);
    if no_bad(s) {
        lemma_no_bad_sub(s, s.len() - a.len(), s.len() as int);
        assert(s.subrange(s.len() - a.len(), s.len() as int) =~= a);
        lemma_no_bad_sub(a, 0, t.len() as int);
        assert(a.subrange(0, t.len() as int) =~= t);
    }
    if t.len() > 0 {
        assert(t[0] == a[0]);
    }
    if a.len() > 0 {
        if t.len() == 0 {
            assert(!is_ws(a[0]));
            lemma_trim_end_keeps_first(a);
        }
        assert(t[0] == a[0]);
    }
}

/// Trimming the end of text that opens on a non-blank character keeps it.
proof fn lemma_trim_end_keeps_first(a: Seq<char>)
    requires
        a.len() > 0,
        !is_ws(a[0]),
    ensures
        trim_end(a).len() > 0,
    decreases a.len(),
{
    if is_ws(a.last()) {
        assert(a.len() > 1);
        assert(a.drop_last()[0] == a[0]);
        lemma_trim_end_keeps_first(a.drop_last());
    }
}

/// Leading blanks of text that has a non-blank character are those of
/// anything it is followed by.
proof fn lemma_trim_start_concat(a: Seq<char>, b: Seq<char>)
    requires
        trim_start(a).len() > 0,
    ensures
        trim_start(a + b) == trim_start(a) + b,
    decreases a.len(),
{
    if a.len() > 0 && is_ws(a[0]) {
        assert((a + b)[0] == a[0]);
        assert((a + b).drop_first() =~= a.drop_first() + b);
        lemma_trim_start_concat(a.drop_first(), b);
    } else {
        assert(a.len() > 0);
        assert((a + b)[0] == a[0]);
    }
}

/// The first non-blank character of a prefix is that of the whole text.
proof fn lemma_trim_start_prefix(s: Seq<char>, n: int)
    requires
        0 <= n <= s.len(),
        trim_start(s.take(n)).len() > 0,
    ensures
        trim_start(s).len() > 0,
        trim_start(s)[0] == trim_start(s.take(n))[0],
{
    lemma_trim_start_concat(s.take(n), s.skip(n));
    assert(s.take(n) + s.skip(n) =~= s);
}

// ---------------------------------------------------------------------------
// Physical and logical lines
// ---------------------------------------------------------------------------

proof fn lemma_lines_from_no_nl(s: Seq<char>, i: int)
    ensures
        forall|k: int| 0 <= k < lines_from(s, i).len() ==> no_nl(#[trigger] lines_from(s, i)[k]),
    decreases s.len() - i,
{
    if 0 <= i < s.len() {
        lemma_line_end(s, i);
        let e = line_end(s, i);
        let raw = s.subrange(i, e);
        assert(no_nl(raw));
        let line = if e < s.len() && raw.len() > 0 && raw.last() == '\r' {
            raw.drop_last()
        } else {
            raw
        };
        assert(no_nl(line));
        if e < s.len() {
            lemma_lines_from_no_nl(s, e + 1);
            let rest = lines_from(s, e + 1);
            assert forall|k: int| 0 <= k < lines_from(s, i).len() implies no_nl(
                #[trigger] lines_from(s, i)[k],
            ) by {
                if k > 0 {
                    assert(lines_from(s, i)[k] == rest[k - 1]);
                } else {
                    assert(lines_from(s, i)[k] == line);
                }
            }
        } else {
            assert(lines_from(s, i)[0] == line);
        }
    }
}

proof fn lemma_comment_cut(s: Seq<char>, i: int)
    requires
        0 <= i <= s.len(),
    ensures
        i <= comment_cut(s, i) <= s.len(),
        forall|k: int| i <= k < comment_cut(s, i) ==> s[k] != ';' && s[k] != '$',
    decreases s.len() - i,
{
    if i < s.len() && s[i] != ';' && s[i] != '$' {
        lemma_comment_cut(s, i + 1);
    }
}

/// A physical line without its comment is free of `;`, `$` and line breaks,
/// and does not open with `*`.
proof fn lemma_strip_comment(raw: Seq<char>)
    requires
        no_nl(raw),
    ensures
        no_bad(strip_comment(raw)),
        trim_start(strip_comment(raw)).len() > 0 ==> trim_start(strip_comment(raw))[0] != '*',
{
    let t0 = trim_start(raw);
    if t0.len() > 0 && t0[0] == '*' {
        assert(strip_comment(raw) =~= Seq::<char>::empty());
    } else {
        lemma_comment_cut(raw, 0);
        let c = comment_cut(raw, 0);
        let p = raw.take(c);
        assert(no_bad(p));
        lemma_trim_end_take(p);
        let cl = trim_end(p);
        assert(cl == strip_comment(raw));
        lemma_no_bad_sub(p, 0, cl.len() as int);
        assert(p.subrange(0, cl.len() as int) =~= cl);
        if trim_start(cl).len() > 0 {
            assert(cl =~= raw.take(cl.len() as int));
            lemma_trim_start_prefix(raw, cl.len() as int);
        }
    }
}

/// A logical line as the reader builds it: free of `;`, `$` and line breaks,
/// with a first non-blank character that is neither `+` nor `*`.
pub open spec fn logical_ok(l: Seq<char>) -> bool {
    &&& no_bad(l)
    &&& trim_start(l).len() > 0
    &&& trim_start(l)[0] != '+'
    &&& trim_start(l)[0] != '*'
}

proof fn lemma_reassemble_ok(ls: Seq<Seq<char>>, k: int, acc: Seq<(int, Seq<char>)>)
    requires
        forall|j: int| 0 <= j < ls.len() ==> no_nl(#[trigger] ls[j]),
        forall|j: int| 0 <= j < acc.len() ==> logical_ok(#[trigger] acc[j].1),
    ensures
        reassemble_from(ls, k, acc) matches Ok(r) ==> forall|j: int|
            0 <= j < r.len() ==> logical_ok(#[trigger] r[j].1),
    decreases ls.len() - k,
{
    if 0 <= k < ls.len() {
        let cleaned = strip_comment(ls[k]);
        lemma_strip_comment(ls[k]);
        let t = trim_start(cleaned);
        lemma_trim_start_skip(cleaned);
        lemma_no_bad_sub(cleaned, cleaned.len() - t.len(), cleaned.len() as int);
        assert(cleaned.subrange(cleaned.len() - t.len(), cleaned.len() as int) =~= t);
        if t.len() > 0 && t[0] == '+' {
            if acc.len() > 0 {
                let last = acc.last();
                let tail = trim(t.drop_first());
                lemma_no_bad_sub(t, 1, t.len() as int);
                assert(t.subrange(1, t.len() as int) =~= t.drop_first());
                lemma_trim_facts(t.drop_first());
                assert(logical_ok(last.1));
                let joined = last.1 + seq![' '] + tail;
                assert(no_bad(seq![' ']));
                crate::roundtrip::lemma_no_bad_concat(last.1, seq![' ']);
                crate::roundtrip::lemma_no_bad_concat(last.1 + seq![' '], tail);
                lemma_trim_start_concat(last.1, seq![' '] + tail);
                assert(joined =~= last.1 + (seq![' '] + tail));
                let acc2 = acc.drop_last().push((last.0, joined));
                assert forall|j: int| 0 <= j < acc2.len() implies logical_ok(#[trigger] acc2[j].1) by {
                    if j < acc.len() - 1 {
                        assert(acc2[j] == acc[j]);
                    }
                }
                lemma_reassemble_ok(ls, k + 1, acc2);
            }
        } else if t.len() == 0 {
            lemma_reassemble_ok(ls, k + 1, acc);
        } else {
            let acc2 = acc.push((k + 1, cleaned));
            assert forall|j: int| 0 <= j < acc2.len() implies logical_ok(#[trigger] acc2[j].1) by {
                if j < acc.len() {
                    assert(acc2[j] == acc[j]);
                }
            }
            lemma_reassemble_ok(ls, k + 1, acc2);
        }
    }
}


// ---------------------------------------------------------------------------
// Tokens, cards and headers
// ---------------------------------------------------------------------------

/// The tokens of text free of `;`, `$` and line breaks are tokens of a card.
proof fn lemma_tokens_from_ok(s: Seq<char>, i: int)
    requires
        no_bad(s),
    ensures
        all_tokens(tokens_from(s, i)),
    decreases s.len() - i,
{
    if 0 <= i < s.len() {
        if is_ws(s[i]) {
            lemma_tokens_from_ok(s, i + 1);
        } else {
            lemma_word_end(s, i + 1);
            let e = word_end(s, i);
            let w = s.subrange(i, e);
            assert(token(w));
            lemma_tokens_from_ok(s, e);
            let rest = tokens_from(s, e);
            assert forall|k: int| 0 <= k < tokens_from(s, i).len() implies token(
                #[trigger] tokens_from(s, i)[k],
            ) by {
                if k > 0 {
                    assert(tokens_from(s, i)[k] == rest[k - 1]);
                } else {
                    assert(tokens_from(s, i)[k] == w);
                }
            }
        }
    }
}

/// Text that opens on a non-blank character has a first token that opens
/// with that character.
proof fn lemma_first_token_char(s: Seq<char>)
    requires
        s.len() > 0,
        !is_ws(s[0]),
    ensures
        tokens(s).len() > 0,
        tokens(s)[0].len() > 0,
        tokens(s)[0][0] == s[0],
{
    lemma_word_end(s, 1);
}

proof fn lemma_all_tokens_sub(ts: Seq<Seq<char>>, i: int, j: int)
    requires
        all_tokens(ts),
        0 <= i <= j <= ts.len(),
    ensures
        all_tokens(ts.subrange(i, j)),
{
    assert forall|k: int| 0 <= k < ts.subrange(i, j).len() implies token(#[trigger] ts.subrange(i, j)[k]) by {
        assert(ts.subrange(i, j)[k] == ts[i + k]);
    }
}

proof fn lemma_all_tokens_concat(a: Seq<Seq<char>>, b: Seq<Seq<char>>)
    requires
        all_tokens(a),
        all_tokens(b),
    ensures
        all_tokens(a + b),
{
    assert forall|k: int| 0 <= k < (a + b).len() implies token(#[trigger] (a + b)[k]) by {
        if k < a.len() {
            assert((a + b)[k] == a[k]);
        } else {
            assert((a + b)[k] == b[k - a.len()]);
        }
    }
}

proof fn lemma_positionals_ok(ts: Seq<Seq<char>>)
    requires
        all_tokens(ts),
    ensures
        all_tokens(positionals(ts)),
    decreases ts.len(),
{
    if ts.len() > 0 {
        lemma_all_tokens_sub(ts, 0, ts.len() - 1);
        assert(ts.subrange(0, ts.len() - 1) =~= ts.drop_last());
        lemma_positionals_ok(ts.drop_last());
        assert(token(ts[ts.len() - 1]));
    }
}

proof fn lemma_header_ports_ok(ts: Seq<Seq<char>>)
    requires
        all_tokens(ts),
    ensures
        all_tokens(header_ports(ts)),
    decreases ts.len(),
{
    if ts.len() > 0 {
        lemma_all_tokens_sub(ts, 0, ts.len() - 1);
        assert(ts.subrange(0, ts.len() - 1) =~= ts.drop_last());
        lemma_header_ports_ok(ts.drop_last());
        assert(token(ts[ts.len() - 1]));
    }
}

proof fn lemma_kv_params_ok(ts: Seq<Seq<char>>)
    requires
        all_tokens(ts),
    ensures
        all_pieces(kv_params(ts)),
    decreases ts.len(),
{
    if ts.len() > 0 {
        lemma_all_tokens_sub(ts, 0, ts.len() - 1);
        assert(ts.subrange(0, ts.len() - 1) =~= ts.drop_last());
        lemma_kv_params_ok(ts.drop_last());
        let t = ts.last();
        assert(token(ts[ts.len() - 1]));
        if is_kv(t) {
            let e = eq_index(t);
            let kv = kv_pair(t);
            assert forall|k: int| 0 <= k < kv.0.len() implies !is_ws(kv.0[k]) && kv.0[k] != ';'
                && kv.0[k] != '$' by {
                assert(kv.0[k] == t[k]);
            }
            assert forall|k: int| 0 <= k < kv.1.len() implies !is_ws(kv.1[k]) && kv.1[k] != ';'
                && kv.1[k] != '$' by {
                assert(kv.1[k] == t[e + 1 + k]);
            }
            assert(piece(kv.0) && piece(kv.1));
            let ps = kv_params(ts);
            assert(ps == kv_params(ts.drop_last()).push(kv));
            assert forall|k: int| #![trigger ps[k]] 0 <= k < ps.len() implies piece(ps[k].0) && piece(
                ps[k].1,
            ) by {
                if k < ps.len() - 1 {
                    assert(ps[k] == kv_params(ts.drop_last())[k]);
                }
            }
        }
    }
}

proof fn lemma_lead_end(ts: Seq<Seq<char>>, i: int, n: int)
    requires
        0 <= i <= ts.len(),
    ensures
        i <= lead_end(ts, i, n) <= ts.len(),
    decreases n - i,
{
    if i < n && i < ts.len() && !is_kv(ts[i]) {
        lemma_lead_end(ts, i + 1, n);
    }
}

proof fn lemma_first_kv(ts: Seq<Seq<char>>, i: int)
    requires
        0 <= i <= ts.len(),
    ensures
        i <= first_kv(ts, i) <= ts.len(),
    decreases ts.len() - i,
{
    if i < ts.len() && !is_kv(ts[i]) {
        lemma_first_kv(ts, i + 1);
    }
}

/// A card line (non-blank at both ends, free of `;`, `$` and line breaks, and
/// not opening with `.`, `*` or `+`) is read as a device that writes back.
proof fn lemma_device_ok(line: Seq<char>)
    requires
        line.len() > 0,
        !is_ws(line[0]),
        no_bad(line),
        line[0] != '.' && line[0] != '*' && line[0] != '+',
    ensures
        device_ok(spec_parse_device(line)),
{
    let toks = tokens(line);
    lemma_first_token_char(line);
    lemma_tokens_from_ok(line, 0);
    let name = toks[0];
    assert(token(name));
    let rest = toks.skip(1);
    lemma_all_tokens_sub(toks, 1, toks.len() as int);
    assert(toks.subrange(1, toks.len() as int) =~= rest);
    let kind = kind_of(name);
    let d = spec_parse_device(line);
    match fixed_nodes(kind) {
        Some(n) => {
            let i0 = lead_end(rest, 0, n);
            lemma_lead_end(rest, 0, n);
            let sub = kind == 'Q' && i0 < rest.len() && !is_kv(rest[i0]) && i0 + 1 < rest.len()
                && !is_kv(rest[i0 + 1]);
            let i1 = if sub { i0 + 1 } else { i0 };
            let with_model = crate::spice::takes_model(kind) && i1 < rest.len() && !is_kv(rest[i1]);
            let i2 = if with_model { i1 + 1 } else { i1 };
            assert(d == fixed_card(name, kind, rest, n));
            lemma_all_tokens_sub(rest, 0, i1);
            assert(rest.subrange(0, i1) =~= rest.take(i1));
            lemma_all_tokens_sub(rest, i2, rest.len() as int);
            assert(rest.subrange(i2, rest.len() as int) =~= rest.skip(i2));
            lemma_positionals_ok(rest.skip(i2));
            lemma_all_tokens_concat(rest.take(i1), positionals(rest.skip(i2)));
            lemma_kv_params_ok(rest.skip(i2));
            if with_model {
                assert(token(rest[i1]));
            }
        },
        None => {
            let k = first_kv(rest, 0);
            lemma_first_kv(rest, 0);
            let with_model = crate::spice::takes_model(kind) && k > 0;
            assert(d == free_card(name, kind, rest));
            let front = if with_model { rest.take(k - 1) } else { rest.take(k) };
            if with_model {
                lemma_all_tokens_sub(rest, 0, k - 1);
                assert(rest.subrange(0, k - 1) =~= front);
                assert(token(rest[k - 1]));
            } else {
                lemma_all_tokens_sub(rest, 0, k);
                assert(rest.subrange(0, k) =~= front);
            }
            lemma_all_tokens_sub(rest, k, rest.len() as int);
            assert(rest.subrange(k, rest.len() as int) =~= rest.skip(k));
            lemma_positionals_ok(rest.skip(k));
            lemma_all_tokens_concat(front, positionals(rest.skip(k)));
            lemma_kv_params_ok(rest.skip(k));
        },
    }
}

/// A `.subckt` header free of `;`, `$` and line breaks declares a definition
/// that writes back.
proof fn lemma_header_ok(rest: Seq<char>, lineno: int)
    requires
        no_bad(rest),
    ensures
        spec_header(rest, lineno) matches Ok(sub) ==> def_ok(sub) && sub.body.len() == 0,
{
    let toks = tokens(rest);
    lemma_tokens_from_ok(rest, 0);
    if toks.len() > 0 {
        lemma_all_tokens_sub(toks, 1, toks.len() as int);
        assert(toks.subrange(1, toks.len() as int) =~= toks.skip(1));
        lemma_header_ports_ok(toks.skip(1));
        lemma_kv_params_ok(toks.skip(1));
        assert(token(toks[0]));
    }
}


// ---------------------------------------------------------------------------
// The reader's state
// ---------------------------------------------------------------------------

/// What the reader keeps true between logical lines: the netlist so far
/// writes back, and the open definition, if any, exists.
pub open spec fn parse_inv(nl: NetlistModel, open: Option<int>) -> bool {
    &&& writable_netlist(nl)
    &&& (open matches Some(i) ==> 0 <= i < nl.defs.len())
}

proof fn lemma_devices_push(ds: Seq<crate::spice::DeviceModel>, d: crate::spice::DeviceModel)
    requires
        devices_ok(ds),
        device_ok(d),
    ensures
        devices_ok(ds.push(d)),
{
    assert forall|i: int| 0 <= i < ds.push(d).len() implies device_ok(#[trigger] ds.push(d)[i]) by {
        if i < ds.len() {
            assert(ds.push(d)[i] == ds[i]);
        }
    }
}

proof fn lemma_with_def_inv(nl: NetlistModel, sub: SubcktModel)
    requires
        writable_netlist(nl),
        def_ok(sub),
    ensures
        parse_inv(with_def(nl, sub), Some(find_def(nl.defs, sub.name, 0))),
{
    let i = find_def(nl.defs, sub.name, 0);
    lemma_find_def(nl.defs, sub.name, 0);
    let n2 = with_def(nl, sub);
    assert forall|k: int| 0 <= k < n2.defs.len() implies def_ok(#[trigger] n2.defs[k]) by {
        if k != i {
            assert(n2.defs[k] == nl.defs[k]);
        }
    }
    assert forall|a: int, b: int| 0 <= a < b < n2.defs.len() implies n2.defs[a].name != n2.defs[b].name by {
        if a != i && b != i {
            assert(n2.defs[a] == nl.defs[a]);
            assert(n2.defs[b] == nl.defs[b]);
        } else if a == i {
            assert(n2.defs[b] == nl.defs[b]);
            if i < nl.defs.len() {
                assert(nl.defs[i].name == sub.name);
            }
        } else {
            assert(n2.defs[a] == nl.defs[a]);
        }
    }
    assert(distinct_names(n2.defs));
    assert forall|k: int| 0 <= k < n2.directives.len() implies directive_ok(#[trigger] n2.directives[k]) by {
        assert(n2.directives[k] == nl.directives[k]);
    }
}

proof fn lemma_with_body_inv(nl: NetlistModel, i: int, d: crate::spice::DeviceModel)
    requires
        writable_netlist(nl),
        0 <= i < nl.defs.len(),
        device_ok(d),
    ensures
        writable_netlist(with_body_device(nl, i, d)),
        with_body_device(nl, i, d).defs.len() == nl.defs.len(),
{
    let n2 = with_body_device(nl, i, d);
    assert(def_ok(nl.defs[i]));
    lemma_devices_push(nl.defs[i].body, d);
    assert forall|k: int| 0 <= k < n2.defs.len() implies def_ok(#[trigger] n2.defs[k]) by {
        if k != i {
            assert(n2.defs[k] == nl.defs[k]);
        }
    }
    assert forall|a: int, b: int| 0 <= a < b < n2.defs.len() implies n2.defs[a].name != n2.defs[b].name by {
        assert(n2.defs[a].name == nl.defs[a].name);
        assert(n2.defs[b].name == nl.defs[b].name);
    }
    assert(distinct_names(n2.defs));
    assert forall|k: int| 0 <= k < n2.directives.len() implies directive_ok(#[trigger] n2.directives[k]) by {
        assert(n2.directives[k] == nl.directives[k]);
    }
}

/// One logical line keeps [`parse_inv`].
proof fn lemma_parse_line_inv(nl: NetlistModel, open: Option<int>, lineno: int, raw: Seq<char>)
    requires
        parse_inv(nl, open),
        logical_ok(raw),
    ensures
        match parse_line(nl, open, lineno, raw) {
            LineOutcome::Next(n2, o2) => parse_inv(n2, o2),
            LineOutcome::Fail(_) => true,
        },
{
    let line = trim(raw);
    lemma_trim_facts(raw);
    assert(line.len() > 0);
    if line[0] == '.' {
        let low = lower_seq(line);
        if has_prefix(low, kw_subckt()) {
            lemma_no_bad_sub(line, 7, line.len() as int);
            assert(line.subrange(7, line.len() as int) =~= line.skip(7));
            lemma_header_ok(line.skip(7), lineno);
            if let Ok(sub) = spec_header(line.skip(7), lineno) {
                lemma_with_def_inv(nl, sub);
            }
        } else if has_prefix(low, kw_ends()) || has_prefix(low, kw_eom()) {
        } else {
            assert(directive_ok(line));
            let n2 = with_directive(nl, line);
            assert forall|k: int| 0 <= k < n2.directives.len() implies directive_ok(
                #[trigger] n2.directives[k],
            ) by {
                if k < nl.directives.len() {
                    assert(n2.directives[k] == nl.directives[k]);
                }
            }
        }
    } else {
        lemma_device_ok(line);
        let d = spec_parse_device(line);
        match open {
            Some(i) => {
                lemma_with_body_inv(nl, i, d);
            },
            None => {
                lemma_devices_push(nl.top, d);
            },
        }
    }
}

proof fn lemma_parse_from_inv(ls: Seq<(int, Seq<char>)>, k: int, nl: NetlistModel, open: Option<int>)
    requires
        parse_inv(nl, open),
        forall|j: int| 0 <= j < ls.len() ==> logical_ok(#[trigger] ls[j].1),
    ensures
        parse_from(ls, k, nl, open) matches Ok(r) ==> writable_netlist(r),
    decreases ls.len() - k,
{
    if 0 <= k < ls.len() {
        lemma_parse_line_inv(nl, open, ls[k].0, ls[k].1);
        match parse_line(nl, open, ls[k].0, ls[k].1) {
            LineOutcome::Next(n2, o2) => lemma_parse_from_inv(ls, k + 1, n2, o2),
            _ => {},
        }
    }
}

/// Every netlist the reader returns writes back: its directives, definitions
/// and cards are plain tokens and its definition names are distinct.
pub proof fn lemma_parsed_writable(text: Seq<char>)
    ensures
        spec_parse(text) matches Ok(nl) ==> writable_netlist(nl),
{
    lemma_lines_from_no_nl(text, 0);
    let ls = lines(text);
    lemma_reassemble_ok(ls, 0, seq![]);
    if let Ok(lg) = spec_reassemble(text) {
        let e = crate::spice::empty_netlist();
        assert(e.top =~= Seq::<crate::spice::DeviceModel>::empty());
        assert(writable_netlist(e));
        lemma_parse_from_inv(lg, 0, e, None);
    }
}

/// Moving the body of a definition to the top level keeps a netlist
/// writable.
pub proof fn lemma_promoted_writable(nl: NetlistModel, i: int)
    requires
        writable_netlist(nl),
        0 <= i < nl.defs.len(),
    ensures
        writable_netlist(promoted(nl, i)),
{
    let p = promoted(nl, i);
    assert(def_ok(nl.defs[i]));
    assert forall|k: int| 0 <= k < p.top.len() implies device_ok(#[trigger] p.top[k]) by {
        if k < nl.top.len() {
            assert(p.top[k] == nl.top[k]);
        } else {
            assert(p.top[k] == nl.defs[i].body[k - nl.top.len()]);
        }
    }
}


/// Writing a parsed deck and reading it again keeps the definition names in
/// order, the number of top-level devices and the number of devices; the
/// directives come back followed by the `.end` line the writer closes with.
pub proof fn lemma_parsed_round_trip(text: Seq<char>)
    ensures
        spec_parse(text) matches Ok(nl) ==> {
            &&& spec_parse(spice_text(nl)) is Ok
            &&& device_total(spec_parse(spice_text(nl))->Ok_0) == device_total(nl)
            &&& def_names(spec_parse(spice_text(nl))->Ok_0.defs) == def_names(nl.defs)
            &&& spec_parse(spice_text(nl))->Ok_0.top.len() == nl.top.len()
            &&& spec_parse(spice_text(nl))->Ok_0.directives == nl.directives.push(end_line())
        },
{
    lemma_parsed_writable(text);
    if let Ok(nl) = spec_parse(text) {
        lemma_round_trip_counts(nl);
    }
}


/// Writing a parsed deck after one definition's body has been moved to the
/// top level (as [`SpiceNetlist::select_subckt`] and
/// [`SpiceNetlist::promote_first_subckt`] do), and reading it again, keeps the
/// definition names in order, the number of top-level devices and the
/// number of devices.
///
/// [`SpiceNetlist::select_subckt`]: crate::spice::SpiceNetlist::select_subckt
/// [`SpiceNetlist::promote_first_subckt`]: crate::spice::SpiceNetlist::promote_first_subckt
pub proof fn lemma_promoted_round_trip(text: Seq<char>, i: int)
    ensures
        spec_parse(text) matches Ok(nl) ==> (0 <= i < nl.defs.len() ==> {
            let p = promoted(nl, i);
            &&& spec_parse(spice_text(p)) is Ok
            &&& device_total(spec_parse(spice_text(p))->Ok_0) == device_total(p)
            &&& def_names(spec_parse(spice_text(p))->Ok_0.defs) == def_names(p.defs)
            &&& spec_parse(spice_text(p))->Ok_0.top.len() == p.top.len()
        }),
{
    lemma_parsed_writable(text);
    if let Ok(nl) = spec_parse(text) {
        if 0 <= i < nl.defs.len() {
            lemma_promoted_writable(nl, i);
            lemma_round_trip_counts(promoted(nl, i));
        }
    }
}

} // verus!
