//! The PDK (process design kit) reader: a tolerant key scanner over JSON or
//! TOML text that extracts the technology name, the database unit and the
//! layer list, and records a warning for each key it does not understand and
//! for what it does not find.
use vstd::prelude::*;

use crate::error::ApiError;
use crate::text::{
    chars_of, copy_range, eq_ignore_case, equal_ignore_case, has_prefix, is_digit, lines,
    parse_i64, skip_ws, spec_parse_i64, split_lines, string_of, trim, trim_start, trimmed,
};

verus! {

// ---------------------------------------------------------------------------
// Searching
// ---------------------------------------------------------------------------

/// `n` occurs in `h` at index `i`.
pub open spec fn occurs_at(h: Seq<char>, i: int, n: Seq<char>) -> bool {
    0 <= i && i + n.len() <= h.len() && h.subrange(i, i + n.len()) == n
}

/// The first index at or after `i` where `n` occurs in `h`.
pub open spec fn find_from(h: Seq<char>, n: Seq<char>, i: int) -> Option<int>
    decreases h.len() + 1 - i,
{
    if i < 0 || i + n.len() > h.len() {
        None
    } else if occurs_at(h, i, n) {
        Some(i)
    } else {
        find_from(h, n, i + 1)
    }
}

/// The first index at or after `i` holding `c`.
pub open spec fn find_char(h: Seq<char>, c: char, i: int) -> Option<int>
    decreases h.len() - i,
{
    if i < 0 || i >= h.len() {
        None
    } else if h[i] == c {
        Some(i)
    } else {
        find_char(h, c, i + 1)
    }
}

/// `s` without its first character when that is `c`.
pub open spec fn strip_char(s: Seq<char>, c: char) -> Option<Seq<char>> {
    if s.len() > 0 && s[0] == c {
        Some(s.drop_first())
    } else {
        None
    }
}

proof fn lemma_find_char(h: Seq<char>, c: char, i: int)
    requires
        0 <= i <= h.len(),
    ensures
        match find_char(h, c, i) {
            Some(k) => i <= k < h.len() && h[k] == c,
            None => true,
        },
    decreases h.len() - i,
{
    if i < h.len() && h[i] != c {
        lemma_find_char(h, c, i + 1);
    }
}

proof fn lemma_find_from(h: Seq<char>, n: Seq<char>, i: int)
    requires
        0 <= i,
    ensures
        match find_from(h, n, i) {
            Some(k) => i <= k && k + n.len() <= h.len(),
            None => true,
        },
    decreases h.len() + 1 - i,
{
    if i + n.len() <= h.len() && !occurs_at(h, i, n) {
        lemma_find_from(h, n, i + 1);
    }
}

/// The first index at or after `from` holding `c`, below `hi`.
fn find_char_exec(h: &Vec<char>, c: char, from: usize, hi: usize) -> (r: Option<usize>)
    requires
        from <= hi <= h@.len(),
    ensures
        match r {
            Some(k) => from <= k < hi && find_char(h@.subrange(from as int, hi as int), c, 0) == Some(
                k - from,
            ),
            None => find_char(h@.subrange(from as int, hi as int), c, 0) is None,
        },
{
    let ghost sub = h@.subrange(from as int, hi as int);
    let mut i = from;
    while i < hi && h[i] != c
        invariant
            from <= i <= hi <= h@.len(),
            sub == h@.subrange(from as int, hi as int),
            find_char(sub, c, (i - from) as int) == find_char(sub, c, 0),
        decreases hi - i,
    {
        i = i + 1;
    }
    if i < hi {
        Some(i)
    } else {
        None
    }
}

/// Whether `n` occurs in `h` at `i`.
fn occurs_at_exec(h: &Vec<char>, i: usize, n: &Vec<char>) -> (b: bool)
    ensures
        b == occurs_at(h@, i as int, n@),
{
    if i > h.len() || n.len() > h.len() - i {
        return false;
    }
    let mut k: usize = 0;
    while k < n.len()
        invariant
            i + n@.len() <= h@.len(),
            h@.len() <= usize::MAX,
            k <= n@.len(),
            forall|j: int| 0 <= j < k ==> h@[i + j] == n@[j],
        decreases n@.len() - k,
    {
        if h[i + k] != n[k] {
            proof {
                assert(h@.subrange(i as int, i + n@.len())[k as int] != n@[k as int]);
            }
            return false;
        }
        k = k + 1;
    }
    proof {
        assert(h@.subrange(i as int, i + n@.len()) =~= n@);
    }
    true
}

/// The first index where `n` occurs in `h`.
fn find_seq(h: &Vec<char>, n: &Vec<char>) -> (r: Option<usize>)
    ensures
        match r {
            Some(k) => find_from(h@, n@, 0) == Some(k as int),
            None => find_from(h@, n@, 0) is None,
        },
{
    let mut i: usize = 0;
    loop
        invariant
            i <= h@.len(),
            find_from(h@, n@, i as int) == find_from(h@, n@, 0),
        decreases h@.len() - i,
    {
        if n.len() > h.len() - i {
            return None;
        }
        if occurs_at_exec(h, i, n) {
            return Some(i);
        }
        if i == h.len() {
            proof {
                assert(h@.subrange(i as int, i as int) =~= n@);
            }
            return None;
        }
        i = i + 1;
    }
}

// ---------------------------------------------------------------------------
// The key scanners
// ---------------------------------------------------------------------------

/// The text after the first `"key"` in `text`.
pub open spec fn after_key(text: Seq<char>, key: Seq<char>) -> Option<Seq<char>> {
    let needle = seq!['"'] + key + seq!['"'];
    match find_from(text, needle, 0) {
        Some(p) => Some(text.skip(p + needle.len())),
        None => None,
    }
}

/// The text after `"key"`, blanks and a `:` and more blanks.
pub open spec fn json_value(text: Seq<char>, key: Seq<char>) -> Option<Seq<char>> {
    match after_key(text, key) {
        Some(r) => match strip_char(trim_start(r), ':') {
            Some(r2) => Some(trim_start(r2)),
            None => None,
        },
        None => None,
    }
}

/// The text up to the first `"` after a leading `"`.
pub open spec fn quoted(s: Seq<char>) -> Option<Seq<char>> {
    match strip_char(s, '"') {
        Some(r) => match find_char(r, '"', 0) {
            Some(e) => Some(r.take(e)),
            None => None,
        },
        None => None,
    }
}

/// The string value of `"key": "value"` in JSON text.
pub open spec fn spec_json_string(text: Seq<char>, key: Seq<char>) -> Option<Seq<char>> {
    match json_value(text, key) {
        Some(v) => quoted(v),
        None => None,
    }
}

/// The end of the leading run of digits and `-` signs.
pub open spec fn number_end(s: Seq<char>, i: int) -> int
    decreases s.len() - i,
{
    if 0 <= i < s.len() && (is_digit(s[i]) || s[i] == '-') {
        number_end(s, i + 1)
    } else {
        i
    }
}

/// The integer value of `"key": number` in JSON text.
pub open spec fn spec_json_number(text: Seq<char>, key: Seq<char>) -> Option<i64> {
    match json_value(text, key) {
        Some(v) => spec_parse_i64(v.take(number_end(v, 0))),
        None => None,
    }
}

/// The comma-separated parts of `s` (what `str::split(',')` yields).
pub open spec fn split_commas(s: Seq<char>) -> Seq<Seq<char>>
    decreases s.len(),
{
    match find_char(s, ',', 0) {
        Some(k) => {
            if 0 <= k < s.len() {
                seq![s.take(k)] + split_commas(s.skip(k + 1))
            } else {
                seq![s]
            }
        },
        None => seq![s],
    }
}

/// The quoted strings among comma-separated parts, in order: each part,
/// trimmed, must open with `"`, and its item runs to the next `"`.
pub open spec fn quoted_items(parts: Seq<Seq<char>>) -> Seq<Seq<char>>
    decreases parts.len(),
{
    if parts.len() == 0 {
        seq![]
    } else {
        match quoted(trim(parts.last())) {
            Some(q) => quoted_items(parts.drop_last()).push(q),
            None => quoted_items(parts.drop_last()),
        }
    }
}

/// The quoted strings of a comma list.
pub open spec fn split_quoted(s: Seq<char>) -> Seq<Seq<char>> {
    quoted_items(split_commas(s))
}

/// The strings of `"key": ["a", "b", ...]` in JSON text: the quoted items
/// between the first `[` after the key and the next `]`.
pub open spec fn spec_json_string_array(text: Seq<char>, key: Seq<char>) -> Seq<Seq<char>> {
    match after_key(text, key) {
        Some(rest) => match find_char(rest, '[', 0) {
            Some(open) => match find_char(rest.skip(open), ']', 0) {
                Some(close) => split_quoted(rest.subrange(open + 1, open + close)),
                None => seq![],
            },
            None => seq![],
        },
        None => seq![],
    }
}

/// The right-hand side of a `key = value` line (trimmed), if the line is one.
pub open spec fn toml_rhs(line: Seq<char>, key: Seq<char>) -> Option<Seq<char>> {
    let t = trim(line);
    if has_prefix(t, key) {
        match strip_char(trim_start(t.skip(key.len() as int)), '=') {
            Some(r) => Some(trim(r)),
            None => None,
        }
    } else {
        None
    }
}

/// The right-hand side of the first `key = value` line among `ls[k..]`.
pub open spec fn toml_find(ls: Seq<Seq<char>>, key: Seq<char>, k: int) -> Option<Seq<char>>
    decreases ls.len() - k,
{
    if k < 0 || k >= ls.len() {
        None
    } else {
        match toml_rhs(ls[k], key) {
            Some(v) => Some(v),
            None => toml_find(ls, key, k + 1),
        }
    }
}

/// The right-hand side of the first `key = value` line of `text`.
pub open spec fn toml_value(text: Seq<char>, key: Seq<char>) -> Option<Seq<char>> {
    toml_find(lines(text), key, 0)
}

/// The string value of `key = "value"` in TOML text.
pub open spec fn spec_toml_string(text: Seq<char>, key: Seq<char>) -> Option<Seq<char>> {
    match toml_value(text, key) {
        Some(v) => quoted(trim(v)),
        None => None,
    }
}

/// The integer value of `key = number` in TOML text.
pub open spec fn spec_toml_number(text: Seq<char>, key: Seq<char>) -> Option<i64> {
    match toml_value(text, key) {
        Some(v) => spec_parse_i64(trim(v)),
        None => None,
    }
}

/// The inside of `[...]`, or nothing when `t` is not bracketed.
pub open spec fn bracket_inner(t: Seq<char>) -> Seq<char> {
    if t.len() >= 2 && t[0] == '[' && t.last() == ']' {
        t.subrange(1, t.len() - 1)
    } else {
        seq![]
    }
}

/// The strings of `key = ["a", "b", ...]` in TOML text.
pub open spec fn spec_toml_string_array(text: Seq<char>, key: Seq<char>) -> Seq<Seq<char>> {
    match toml_value(text, key) {
        Some(v) => split_quoted(bracket_inner(trim(v))),
        None => seq![],
    }
}

/// The characters of `s` after the first `from`.
fn tail_from(s: &Vec<char>, from: usize) -> (r: Vec<char>)
    requires
        from <= s@.len(),
    ensures
        r@ == s@.skip(from as int),
{
    let r = copy_range(s, from, s.len());
    proof {
        assert(r@ =~= s@.skip(from as int));
    }
    r
}

/// `s` without its leading white space.
fn trim_start_vec(s: &Vec<char>) -> (r: Vec<char>)
    ensures
        r@ == trim_start(s@),
{
    let lo = skip_ws(s, 0, s.len());
    proof {
        assert(s@.subrange(0, s@.len() as int) =~= s@);
    }
    copy_range(s, lo, s.len())
}

/// `s` without its first character when that is `c`.
fn strip_char_vec(s: &Vec<char>, c: char) -> (r: Option<Vec<char>>)
    ensures
        match r {
            Some(v) => strip_char(s@, c) == Some(v@),
            None => strip_char(s@, c) is None,
        },
{
    if s.len() > 0 && s[0] == c {
        let v = tail_from(s, 1);
        proof {
            assert(v@ =~= s@.drop_first());
        }
        Some(v)
    } else {
        None
    }
}

/// The text up to the first `"` after a leading `"`.
fn quoted_vec(s: &Vec<char>) -> (r: Option<Vec<char>>)
    ensures
        match r {
            Some(v) => quoted(s@) == Some(v@),
            None => quoted(s@) is None,
        },
{
    match strip_char_vec(s, '"') {
        Some(rest) => {
            let ghost rv = rest@;
            proof {
                assert(rest@.subrange(0, rest@.len() as int) =~= rest@);
                lemma_find_char(rest@, '"', 0);
            }
            match find_char_exec(&rest, '"', 0, rest.len()) {
                Some(e) => {
                    let v = copy_range(&rest, 0, e);
                    proof {
                        assert(v@ =~= rv.take(e as int));
                    }
                    Some(v)
                },
                None => None,
            }
        },
        None => None,
    }
}

/// The text after the first `"key"` in `text`.
fn after_key_vec(text: &Vec<char>, key: &Vec<char>) -> (r: Option<Vec<char>>)
    ensures
        match r {
            Some(v) => after_key(text@, key@) == Some(v@),
            None => after_key(text@, key@) is None,
        },
{
    let mut needle: Vec<char> = Vec::new();
    needle.push('"');
    let mut i: usize = 0;
    while i < key.len()
        invariant
            i <= key@.len(),
            needle@ == seq!['"'] + key@.take(i as int),
        decreases key@.len() - i,
    {
        needle.push(key[i]);
        proof {
            assert(needle@ =~= seq!['"'] + key@.take(i + 1));
        }
        i = i + 1;
    }
    needle.push('"');
    proof {
        assert(key@.take(key@.len() as int) =~= key@);
        assert(needle@ =~= seq!['"'] + key@ + seq!['"']);
    }
    proof {
        lemma_find_from(text@, needle@, 0);
    }
    match find_seq(text, &needle) {
        Some(p) => {
            let tl = text.len();
            let nl = needle.len();
            proof {
                assert(find_from(text@, needle@, 0) == Some(p as int));
                assert(p + nl <= tl);
            }
            Some(tail_from(text, p + nl))
        },
        None => None,
    }
}

/// The text after `"key"`, blanks, a `:` and more blanks.
fn json_value_vec(text: &Vec<char>, key: &Vec<char>) -> (r: Option<Vec<char>>)
    ensures
        match r {
            Some(v) => json_value(text@, key@) == Some(v@),
            None => json_value(text@, key@) is None,
        },
{
    match after_key_vec(text, key) {
        Some(rest) => {
            let t = trim_start_vec(&rest);
            match strip_char_vec(&t, ':') {
                Some(r2) => Some(trim_start_vec(&r2)),
                None => None,
            }
        },
        None => None,
    }
}

/// The comma-separated parts of `s`.
fn split_commas_vec(s: &Vec<char>) -> (r: Vec<Vec<char>>)
    ensures
        r@.map_values(|t: Vec<char>| t@) == split_commas(s@),
    decreases s@.len(),
{
    let n = s.len();
    proof {
        assert(s@.subrange(0, n as int) =~= s@);
        lemma_find_char(s@, ',', 0);
    }
    match find_char_exec(s, ',', 0, n) {
        Some(k) => {
            let head = copy_range(s, 0, k);
            let rest = tail_from(s, k + 1);
            let mut out: Vec<Vec<char>> = Vec::new();
            out.push(head);
            let tail = split_commas_vec(&rest);
            let ghost tv = tail@.map_values(|t: Vec<char>| t@);
            let mut j: usize = 0;
            let ghost hv = head@;
            while j < tail.len()
                invariant
                    j <= tail@.len(),
                    tv == tail@.map_values(|t: Vec<char>| t@),
                    out@.map_values(|t: Vec<char>| t@) == seq![hv] + tv.take(j as int),
                decreases tail@.len() - j,
            {
                let ghost before = out@.map_values(|t: Vec<char>| t@);
                let item = copy_range(&tail[j], 0, tail[j].len());
                proof {
                    assert(item@ =~= tail@[j as int]@);
                }
                out.push(item);
                proof {
                    assert(out@.map_values(|t: Vec<char>| t@) =~= before.push(item@));
                    assert(seq![hv] + tv.take(j + 1) =~= (seq![hv] + tv.take(j as int)).push(
                        tv[j as int],
                    ));
                }
                j = j + 1;
            }
            proof {
                assert(tv.take(tv.len() as int) =~= tv);
                assert(hv == s@.take(k as int));
            }
            out
        },
        None => {
            let mut out: Vec<Vec<char>> = Vec::new();
            let whole = copy_range(s, 0, n);
            out.push(whole);
            proof {
                assert(out@.map_values(|t: Vec<char>| t@) =~= seq![s@]);
            }
            out
        },
    }
}

/// The quoted strings of a comma list.
fn split_quoted_vec(s: &Vec<char>) -> (r: Vec<String>)
    ensures
        r@.map_values(|t: String| t@) == split_quoted(s@),
{
    let parts = split_commas_vec(s);
    let ghost ps = parts@.map_values(|t: Vec<char>| t@);
    let mut out: Vec<String> = Vec::new();
    let mut i: usize = 0;
    proof {
        assert(out@.map_values(|t: String| t@) =~= quoted_items(ps.take(0)));
    }
    while i < parts.len()
        invariant
            i <= parts@.len(),
            ps == parts@.map_values(|t: Vec<char>| t@),
            out@.map_values(|t: String| t@) == quoted_items(ps.take(i as int)),
        decreases parts@.len() - i,
    {
        proof {
            assert(ps.take(i + 1).drop_last() =~= ps.take(i as int));
        }
        let t = crate::text::trimmed(&parts[i]);
        match quoted_vec(&t) {
            Some(q) => {
                let ghost before = out@.map_values(|t: String| t@);
                let qs = string_of(&q);
                out.push(qs);
                proof {
                    assert(out@.map_values(|t: String| t@) =~= before.push(q@));
                }
            },
            None => {},
        }
        i = i + 1;
    }
    proof {
        assert(ps.take(ps.len() as int) =~= ps);
    }
    out
}

/// The string value of `"key": "value"` in JSON text.
fn scan_json_string(text: &Vec<char>, key: &Vec<char>) -> (r: Option<String>)
    ensures
        match r {
            Some(v) => spec_json_string(text@, key@) == Some(v@),
            None => spec_json_string(text@, key@) is None,
        },
{
    match json_value_vec(text, key) {
        Some(v) => match quoted_vec(&v) {
            Some(q) => Some(string_of(&q)),
            None => None,
        },
        None => None,
    }
}

/// The integer value of `"key": number` in JSON text.
fn scan_json_number(text: &Vec<char>, key: &Vec<char>) -> (r: Option<i64>)
    ensures
        r == spec_json_number(text@, key@),
{
    match json_value_vec(text, key) {
        Some(v) => {
            let mut e: usize = 0;
            while e < v.len() && (('0' <= v[e] && v[e] <= '9') || v[e] == '-')
                invariant
                    e <= v@.len(),
                    number_end(v@, e as int) == number_end(v@, 0),
                decreases v@.len() - e,
            {
                e = e + 1;
            }
            let digits = copy_range(&v, 0, e);
            proof {
                assert(digits@ =~= v@.take(e as int));
            }
            parse_i64(&digits)
        },
        None => None,
    }
}

/// The quoted items between the first `[` of `rest` and the next `]`.
fn bracket_items(rest: &Vec<char>) -> (r: Vec<String>)
    ensures
        r@.map_values(|t: String| t@) == (match find_char(rest@, '[', 0) {
            Some(open) => match find_char(rest@.skip(open), ']', 0) {
                Some(close) => split_quoted(rest@.subrange(open + 1, open + close)),
                None => seq![],
            },
            None => seq![],
        }),
{
    let n = rest.len();
    proof {
        assert(rest@.subrange(0, n as int) =~= rest@);
        lemma_find_char(rest@, '[', 0);
    }
    let empty: Vec<String> = Vec::new();
    proof {
        assert(empty@.map_values(|t: String| t@) =~= seq![]);
    }
    match find_char_exec(rest, '[', 0, n) {
        Some(open) => {
            proof {
                assert(rest@.subrange(open as int, n as int) =~= rest@.skip(open as int));
            }
            match find_char_exec(rest, ']', open, n) {
                Some(close) => {
                    proof {
                        lemma_find_char(rest@.skip(open as int), ']', 0);
                    }
                    let inner = copy_range(rest, open + 1, close);
                    split_quoted_vec(&inner)
                },
                None => empty,
            }
        },
        None => empty,
    }
}

/// The strings of `"key": [...]` in JSON text.
fn scan_json_string_array(text: &Vec<char>, key: &Vec<char>) -> (r: Vec<String>)
    ensures
        r@.map_values(|t: String| t@) == spec_json_string_array(text@, key@),
{
    match after_key_vec(text, key) {
        Some(rest) => bracket_items(&rest),
        None => {
            let v: Vec<String> = Vec::new();
            proof {
                assert(v@.map_values(|t: String| t@) =~= seq![]);
            }
            v
        },
    }
}

/// The right-hand side of a `key = value` line, if the line is one.
fn toml_rhs_vec(line: &Vec<char>, key: &Vec<char>) -> (r: Option<Vec<char>>)
    ensures
        match r {
            Some(v) => toml_rhs(line@, key@) == Some(v@),
            None => toml_rhs(line@, key@) is None,
        },
{
    let t = trimmed(line);
    if key.len() > t.len() {
        return None;
    }
    let mut i: usize = 0;
    while i < key.len()
        invariant
            key@.len() <= t@.len(),
            t@ == trim(line@),
            i <= key@.len(),
            forall|j: int| 0 <= j < i ==> t@[j] == key@[j],
        decreases key@.len() - i,
    {
        if t[i] != key[i] {
            proof {
                assert(t@.take(key@.len() as int)[i as int] != key@[i as int]);
            }
            return None;
        }
        i = i + 1;
    }
    proof {
        assert(t@.take(key@.len() as int) =~= key@);
    }
    let rest = tail_from(&t, key.len());
    let rest = trim_start_vec(&rest);
    match strip_char_vec(&rest, '=') {
        Some(r) => Some(trimmed(&r)),
        None => None,
    }
}

/// The right-hand side of the first `key = value` line of `text`.
fn toml_value_vec(text: &Vec<char>, key: &Vec<char>) -> (r: Option<Vec<char>>)
    ensures
        match r {
            Some(v) => toml_value(text@, key@) == Some(v@),
            None => toml_value(text@, key@) is None,
        },
{
    let ls = split_lines(text);
    let ghost lv = ls@.map_values(|t: Vec<char>| t@);
    let mut k: usize = 0;
    while k < ls.len()
        invariant
            k <= ls@.len(),
            lv == ls@.map_values(|t: Vec<char>| t@),
            lv == lines(text@),
            toml_find(lv, key@, k as int) == toml_value(text@, key@),
        decreases ls@.len() - k,
    {
        match toml_rhs_vec(&ls[k], key) {
            Some(v) => {
                return Some(v);
            },
            None => {},
        }
        k = k + 1;
    }
    None
}

/// The string value of `key = "value"` in TOML text.
fn scan_toml_string(text: &Vec<char>, key: &Vec<char>) -> (r: Option<String>)
    ensures
        match r {
            Some(v) => spec_toml_string(text@, key@) == Some(v@),
            None => spec_toml_string(text@, key@) is None,
        },
{
    match toml_value_vec(text, key) {
        Some(v) => {
            let t = trimmed(&v);
            match quoted_vec(&t) {
                Some(q) => Some(string_of(&q)),
                None => None,
            }
        },
        None => None,
    }
}

/// The integer value of `key = number` in TOML text.
fn scan_toml_number(text: &Vec<char>, key: &Vec<char>) -> (r: Option<i64>)
    ensures
        r == spec_toml_number(text@, key@),
{
    match toml_value_vec(text, key) {
        Some(v) => {
            let t = trimmed(&v);
            parse_i64(&t)
        },
        None => None,
    }
}

/// The strings of `key = [...]` in TOML text.
fn scan_toml_string_array(text: &Vec<char>, key: &Vec<char>) -> (r: Vec<String>)
    ensures
        r@.map_values(|t: String| t@) == spec_toml_string_array(text@, key@),
{
    match toml_value_vec(text, key) {
        Some(v) => {
            let t = trimmed(&v);
            let n = t.len();
            let inner = if n >= 2 && t[0] == '[' && t[n - 1] == ']' {
                copy_range(&t, 1, n - 1)
            } else {
                Vec::new()
            };
            proof {
                assert(inner@ =~= bracket_inner(t@));
            }
            split_quoted_vec(&inner)
        },
        None => {
            let v: Vec<String> = Vec::new();
            proof {
                assert(v@.map_values(|t: String| t@) =~= seq![]);
            }
            v
        },
    }
}

// ---------------------------------------------------------------------------
// The PDK
// ---------------------------------------------------------------------------

/// The serialized format of a PDK file.
#[derive(Debug, Clone, Copy, PartialEq, Eq, Structural)]
pub enum PdkFormat {
    Json,
    Toml,
}

/// A loaded process design kit.
#[derive(Debug, Clone, Default)]
pub struct Pdk {
    tech: Option<String>,
    db_unit_nm: Option<i64>,
    layers: Vec<String>,
    format: Option<PdkFormat>,
    warnings: Vec<String>,
}

/// A PDK as plain values.
pub struct PdkModel {
    pub tech: Option<Seq<char>>,
    pub db_unit_nm: Option<i64>,
    pub layers: Seq<Seq<char>>,
    pub format: Option<PdkFormat>,
    pub warnings: Seq<Seq<char>>,
}

impl View for Pdk {
    type V = PdkModel;

    closed spec fn view(&self) -> PdkModel {
        PdkModel {
            tech: match self.tech {
                Some(t) => Some(t@),
                None => None,
            },
            db_unit_nm: self.db_unit_nm,
            layers: self.layers@.map_values(|t: String| t@),
            format: self.format,
            warnings: self.warnings@.map_values(|t: String| t@),
        }
    }
}

// ---------------------------------------------------------------------------
// Keys the scanner does not understand
// ---------------------------------------------------------------------------

/// A key the scanner reads: `tech`, `db_unit_nm` or `layers`.
pub open spec fn known_key(k: Seq<char>) -> bool {
    k == "tech"@ || k == "db_unit_nm"@ || k == "layers"@
}

/// After index `j` of `t`, past any blanks, comes a `:`.
pub open spec fn colon_after(t: Seq<char>, j: int) -> bool {
    strip_char(trim_start(t.skip(j)), ':') is Some
}

/// The keys of JSON text from index `i` on: each quoted string whose closing
/// quote is followed, past blanks, by a `:`, in order.
pub closed spec fn json_keys_from(t: Seq<char>, i: int) -> Seq<Seq<char>>
    decreases t.len() - i,
{
    if i < 0 || i >= t.len() {
        seq![]
    } else {
        match find_char(t, '"', i) {
            Some(a) => {
                proof {
                    lemma_find_char(t, '"', i);
                    lemma_find_char(t, '"', a + 1);
                }
                match find_char(t, '"', a + 1) {
                    Some(b) => {
                        let rest = json_keys_from(t, b + 1);
                        if colon_after(t, b + 1) {
                            seq![t.subrange(a + 1, b)] + rest
                        } else {
                            rest
                        }
                    },
                    None => seq![],
                }
            },
            None => seq![],
        }
    }
}

/// The key of a TOML line: the trimmed text before the first `=` of a line
/// that is neither blank nor a `#` comment.
pub open spec fn toml_line_key(line: Seq<char>) -> Option<Seq<char>> {
    let t = trim(line);
    if t.len() > 0 && t[0] != '#' {
        match find_char(t, '=', 0) {
            Some(e) => Some(trim(t.take(e))),
            None => None,
        }
    } else {
        None
    }
}

/// The keys of TOML lines, in order.
pub open spec fn toml_keys(ls: Seq<Seq<char>>) -> Seq<Seq<char>>
    decreases ls.len(),
{
    if ls.len() == 0 {
        seq![]
    } else {
        match toml_line_key(ls.last()) {
            Some(k) => toml_keys(ls.drop_last()).push(k),
            None => toml_keys(ls.drop_last()),
        }
    }
}

/// The keys of PDK text in the given format.
pub open spec fn schema_keys(text: Seq<char>, format: PdkFormat) -> Seq<Seq<char>> {
    match format {
        PdkFormat::Json => json_keys_from(text, 0),
        PdkFormat::Toml => toml_keys(lines(text)),
    }
}

/// The warning for a key the scanner does not understand.
pub open spec fn unknown_key_warning(k: Seq<char>) -> Seq<char> {
    "unrecognized key `"@ + k + "` (stub parser)"@
}

/// One warning per key the scanner does not understand, in order.
pub open spec fn unknown_key_warnings(keys: Seq<Seq<char>>) -> Seq<Seq<char>>
    decreases keys.len(),
{
    if keys.len() == 0 {
        seq![]
    } else if known_key(keys.last()) {
        unknown_key_warnings(keys.drop_last())
    } else {
        unknown_key_warnings(keys.drop_last()).push(unknown_key_warning(keys.last()))
    }
}

/// The first index at or after `from` holding `c`.
fn find_char_from(h: &Vec<char>, c: char, from: usize) -> (r: Option<usize>)
    requires
        from <= h@.len(),
    ensures
        match r {
            Some(k) => find_char(h@, c, from as int) == Some(k as int),
            None => find_char(h@, c, from as int) is None,
        },
{
    let mut i = from;
    while i < h.len() && h[i] != c
        invariant
            from <= i <= h@.len(),
            find_char(h@, c, i as int) == find_char(h@, c, from as int),
        decreases h@.len() - i,
    {
        i = i + 1;
    }
    if i < h.len() {
        Some(i)
    } else {
        None
    }
}

/// Whether a `:` follows index `j` of `t`, past any blanks.
fn colon_after_exec(t: &Vec<char>, j: usize) -> (b: bool)
    requires
        j <= t@.len(),
    ensures
        b == colon_after(t@, j as int),
{
    let n = t.len();
    let r = skip_ws(t, j, n);
    proof {
        assert(t@.skip(j as int) =~= t@.subrange(j as int, n as int));
    }
    r < n && t[r] == ':'
}

/// The keys of JSON text, in order.
fn json_keys_vec(t: &Vec<char>) -> (r: Vec<Vec<char>>)
    ensures
        r@.map_values(|v: Vec<char>| v@) == json_keys_from(t@, 0),
{
    let mut out: Vec<Vec<char>> = Vec::new();
    let mut i: usize = 0;
    while i < t.len()
        invariant
            i <= t@.len(),
            out@.map_values(|v: Vec<char>| v@) + json_keys_from(t@, i as int) == json_keys_from(
                t@,
                0,
            ),
        decreases t@.len() - i,
    {
        proof {
            lemma_find_char(t@, '"', i as int);
        }
        match find_char_from(t, '"', i) {
            Some(a) => {
                proof {
                    lemma_find_char(t@, '"', a + 1);
                }
                match find_char_from(t, '"', a + 1) {
                    Some(b) => {
                        let ghost before = out@.map_values(|v: Vec<char>| v@);
                        if colon_after_exec(t, b + 1) {
                            let k = copy_range(t, a + 1, b);
                            out.push(k);
                            proof {
                                assert(out@.map_values(|v: Vec<char>| v@) =~= before + seq![k@]);
                                assert(before + seq![k@] + json_keys_from(t@, b + 1) =~= before + (
                                seq![t@.subrange(a + 1, b as int)] + json_keys_from(t@, b + 1)));
                            }
                        }
                        i = b + 1;
                    },
                    None => {
                        proof {
                            assert(json_keys_from(t@, i as int) =~= Seq::<Seq<char>>::empty());
                            assert(json_keys_from(t@, t@.len() as int) =~= Seq::<Seq<char>>::empty());
                        }
                        i = t.len();
                    },
                }
            },
            None => {
                proof {
                    assert(json_keys_from(t@, i as int) =~= Seq::<Seq<char>>::empty());
                    assert(json_keys_from(t@, t@.len() as int) =~= Seq::<Seq<char>>::empty());
                }
                i = t.len();
            },
        }
    }
    proof {
        assert(json_keys_from(t@, i as int) =~= Seq::<Seq<char>>::empty());
        assert(out@.map_values(|v: Vec<char>| v@) + Seq::<Seq<char>>::empty() =~= out@.map_values(
            |v: Vec<char>| v@,
        ));
    }
    out
}

/// The key of a TOML line, if it has one.
fn toml_line_key_vec(line: &Vec<char>) -> (r: Option<Vec<char>>)
    ensures
        match r {
            Some(k) => toml_line_key(line@) == Some(k@),
            None => toml_line_key(line@) is None,
        },
{
    let t = trimmed(line);
    if t.len() > 0 && t[0] != '#' {
        match find_char_from(&t, '=', 0) {
            Some(e) => {
                proof {
                    lemma_find_char(t@, '=', 0);
                }
                let head = copy_range(&t, 0, e);
                proof {
                    assert(head@ =~= t@.take(e as int));
                }
                Some(trimmed(&head))
            },
            None => None,
        }
    } else {
        None
    }
}

/// The keys of TOML text, in order.
fn toml_keys_vec(text: &Vec<char>) -> (r: Vec<Vec<char>>)
    ensures
        r@.map_values(|v: Vec<char>| v@) == toml_keys(lines(text@)),
{
    let ls = split_lines(text);
    let ghost lv = ls@.map_values(|t: Vec<char>| t@);
    let mut out: Vec<Vec<char>> = Vec::new();
    let mut k: usize = 0;
    while k < ls.len()
        invariant
            k <= ls@.len(),
            lv == ls@.map_values(|t: Vec<char>| t@),
            lv == lines(text@),
            out@.map_values(|v: Vec<char>| v@) == toml_keys(lv.take(k as int)),
        decreases ls@.len() - k,
    {
        proof {
            assert(lv.take(k + 1).drop_last() =~= lv.take(k as int));
            assert(lv.take(k + 1).last() == ls@[k as int]@);
        }
        let ghost before = out@.map_values(|v: Vec<char>| v@);
        match toml_line_key_vec(&ls[k]) {
            Some(key) => {
                out.push(key);
                proof {
                    assert(out@.map_values(|v: Vec<char>| v@) =~= before.push(key@));
                }
            },
            None => {},
        }
        k = k + 1;
    }
    proof {
        assert(lv.take(lv.len() as int) =~= lv);
    }
    out
}

/// The warning for key `k`.
fn unknown_key_warning_string(k: &Vec<char>) -> (s: String)
    ensures
        s@ == unknown_key_warning(k@),
{
    let mut v = chars_of("unrecognized key `");
    let ghost pre = v@;
    let mut i: usize = 0;
    while i < k.len()
        invariant
            i <= k@.len(),
            v@ == pre + k@.take(i as int),
        decreases k@.len() - i,
    {
        v.push(k[i]);
        proof {
            assert(v@ =~= pre + k@.take(i + 1));
        }
        i = i + 1;
    }
    let post = chars_of("` (stub parser)");
    let mut j: usize = 0;
    proof {
        assert(k@.take(k@.len() as int) =~= k@);
    }
    while j < post.len()
        invariant
            j <= post@.len(),
            v@ == pre + k@ + post@.take(j as int),
        decreases post@.len() - j,
    {
        v.push(post[j]);
        proof {
            assert(v@ =~= pre + k@ + post@.take(j + 1));
        }
        j = j + 1;
    }
    proof {
        assert(post@.take(post@.len() as int) =~= post@);
    }
    string_of(&v)
}

/// Append one warning per key that the scanner does not understand.
fn push_unknown_key_warnings(keys: &Vec<Vec<char>>, warnings: &mut Vec<String>)
    ensures
        final(warnings)@.map_values(|t: String| t@) == old(warnings)@.map_values(|t: String| t@)
            + unknown_key_warnings(keys@.map_values(|v: Vec<char>| v@)),
{
    let ghost kv = keys@.map_values(|v: Vec<char>| v@);
    let ghost w0 = warnings@.map_values(|t: String| t@);
    let k_tech = chars_of("tech");
    let k_unit = chars_of("db_unit_nm");
    let k_layers = chars_of("layers");
    let mut i: usize = 0;
    proof {
        assert(unknown_key_warnings(kv.take(0)) =~= Seq::<Seq<char>>::empty());
        assert(warnings@.map_values(|t: String| t@) =~= w0 + Seq::<Seq<char>>::empty());
    }
    while i < keys.len()
        invariant
            i <= keys@.len(),
            kv == keys@.map_values(|v: Vec<char>| v@),
            k_tech@ == "tech"@,
            k_unit@ == "db_unit_nm"@,
            k_layers@ == "layers"@,
            warnings@.map_values(|t: String| t@) == w0 + unknown_key_warnings(kv.take(i as int)),
        decreases keys@.len() - i,
    {
        proof {
            assert(kv.take(i + 1).drop_last() =~= kv.take(i as int));
            assert(kv.take(i + 1).last() == keys@[i as int]@);
        }
        let key = &keys[i];
        let known = vec_eq(key, &k_tech) || vec_eq(key, &k_unit) || vec_eq(key, &k_layers);
        if !known {
            let ghost before = warnings@.map_values(|t: String| t@);
            let w = unknown_key_warning_string(key);
            warnings.push(w);
            proof {
                assert(warnings@.map_values(|t: String| t@) =~= before.push(w@));
            }
        }
        i = i + 1;
    }
    proof {
        assert(kv.take(kv.len() as int) =~= kv);
    }
}

/// Whether two character vectors hold the same characters.
fn vec_eq(a: &Vec<char>, b: &Vec<char>) -> (r: bool)
    ensures
        r == (a@ == b@),
{
    if a.len() != b.len() {
        return false;
    }
    let mut i: usize = 0;
    while i < a.len()
        invariant
            a@.len() == b@.len(),
            i <= a@.len(),
            forall|j: int| 0 <= j < i ==> a@[j] == b@[j],
        decreases a@.len() - i,
    {
        if a[i] != b[i] {
            return false;
        }
        i = i + 1;
    }
    proof {
        assert(a@ =~= b@);
    }
    true
}

/// The warning for JSON text without a `{`.
pub open spec fn not_json_warning() -> Seq<char> {
    "text does not look like JSON (stub parser)"@
}

/// The warning for a schema without a `tech` key.
pub open spec fn no_tech_warning() -> Seq<char> {
    "schema declares no `tech` key (stub parser)"@
}

/// The PDK that the text describes in the given format, or the message for
/// blank text. The scanner is tolerant: JSON text without a `{`, each key it
/// does not understand and a schema without `tech` only draw warnings, in
/// that order.
pub open spec fn spec_pdk(text: Seq<char>, format: PdkFormat) -> Result<PdkModel, Seq<char>> {
    if trim(text).len() == 0 {
        Err("empty PDK schema"@)
    } else {
        let (tech, unit, layers, w0) = match format {
            PdkFormat::Json => (
                spec_json_string(text, "tech"@),
                spec_json_number(text, "db_unit_nm"@),
                spec_json_string_array(text, "layers"@),
                if find_char(text, '{', 0) is None {
                    seq![not_json_warning()]
                } else {
                    seq![]
                },
            ),
            PdkFormat::Toml => (
                spec_toml_string(text, "tech"@),
                spec_toml_number(text, "db_unit_nm"@),
                spec_toml_string_array(text, "layers"@),
                seq![],
            ),
        };
        let w1 = w0 + unknown_key_warnings(schema_keys(text, format));
        Ok(
            PdkModel {
                tech,
                db_unit_nm: unit,
                layers,
                format: Some(format),
                warnings: if tech is None {
                    w1.push(no_tech_warning())
                } else {
                    w1
                },
            },
        )
    }
}

impl Pdk {
    /// Parse a PDK from JSON text.
    pub fn from_json_str(text: &str) -> (r: Result<Pdk, ApiError>)
        ensures
            match r {
                Ok(p) => spec_pdk(text@, PdkFormat::Json) == Ok::<PdkModel, Seq<char>>(p@),
                Err(e) => e matches ApiError::Pdk(m) && spec_pdk(text@, PdkFormat::Json) == Err::<
                    PdkModel,
                    Seq<char>,
                >(m@),
            },
    {
        Self::parse(text, PdkFormat::Json)
    }

    /// Parse a PDK from TOML text.
    pub fn from_toml_str(text: &str) -> (r: Result<Pdk, ApiError>)
        ensures
            match r {
                Ok(p) => spec_pdk(text@, PdkFormat::Toml) == Ok::<PdkModel, Seq<char>>(p@),
                Err(e) => e matches ApiError::Pdk(m) && spec_pdk(text@, PdkFormat::Toml) == Err::<
                    PdkModel,
                    Seq<char>,
                >(m@),
            },
    {
        Self::parse(text, PdkFormat::Toml)
    }

    /// The technology name, if the schema declared one.
    pub fn tech(&self) -> (r: Option<&str>)
        ensures
            match r {
                Some(t) => self@.tech == Some(t@),
                None => self@.tech is None,
            },
    {
        match &self.tech {
            Some(t) => Some(t.as_str()),
            None => None,
        }
    }

    /// The database unit in nanometers, if declared.
    pub fn db_unit_nm(&self) -> (r: Option<i64>)
        ensures
            r == self@.db_unit_nm,
    {
        self.db_unit_nm
    }

    /// The declared layer names.
    pub fn layers(&self) -> (r: &[String])
        ensures
            r@.map_values(|t: String| t@) == self@.layers,
    {
        self.layers.as_slice()
    }

    /// The format this PDK was parsed from.
    pub fn format(&self) -> (r: Option<PdkFormat>)
        ensures
            r == self@.format,
    {
        self.format
    }

    /// Soft warnings produced while loading.
    pub fn warnings(&self) -> (r: &[String])
        ensures
            r@.map_values(|t: String| t@) == self@.warnings,
    {
        self.warnings.as_slice()
    }

    /// Scan PDK text in the given format.
    fn parse(text: &str, format: PdkFormat) -> (r: Result<Pdk, ApiError>)
        ensures
            match r {
                Ok(p) => spec_pdk(text@, format) == Ok::<PdkModel, Seq<char>>(p@),
                Err(e) => e matches ApiError::Pdk(m) && spec_pdk(text@, format) == Err::<
                    PdkModel,
                    Seq<char>,
                >(m@),
            },
    {
        let chars = chars_of(text);
        let t = trimmed(&chars);
        if t.len() == 0 {
            return Err(ApiError::Pdk(String::from_str("empty PDK schema")));
        }
        let k_tech = chars_of("tech");
        let k_unit = chars_of("db_unit_nm");
        let k_layers = chars_of("layers");
        let mut warnings: Vec<String> = Vec::new();
        let (tech, unit, layers) = match format {
            PdkFormat::Json => {
                let n = chars.len();
                proof {
                    assert(chars@.subrange(0, n as int) =~= chars@);
                }
                if find_char_exec(&chars, '{', 0, n).is_none() {
                    warnings.push(String::from_str("text does not look like JSON (stub parser)"));
                }
                (
                    scan_json_string(&chars, &k_tech),
                    scan_json_number(&chars, &k_unit),
                    scan_json_string_array(&chars, &k_layers),
                )
            },
            PdkFormat::Toml => (
                scan_toml_string(&chars, &k_tech),
                scan_toml_number(&chars, &k_unit),
                scan_toml_string_array(&chars, &k_layers),
            ),
        };
        let keys = match format {
            PdkFormat::Json => json_keys_vec(&chars),
            PdkFormat::Toml => toml_keys_vec(&chars),
        };
        let ghost w0 = warnings@.map_values(|t: String| t@);
        proof {
            assert(chars@ == text@);
            assert(w0 == (match format {
                PdkFormat::Json => if find_char(text@, '{', 0) is None {
                    seq![not_json_warning()]
                } else {
                    seq![]
                },
                PdkFormat::Toml => seq![],
            }));
        }
        push_unknown_key_warnings(&keys, &mut warnings);
        let ghost w1 = warnings@.map_values(|t: String| t@);
        proof {
            assert(w1 == w0 + unknown_key_warnings(schema_keys(text@, format)));
        }
        if tech.is_none() {
            warnings.push(String::from_str("schema declares no `tech` key (stub parser)"));
        }
        let p = Pdk { tech, db_unit_nm: unit, layers, format: Some(format), warnings };
        proof {
            let m = spec_pdk(text@, format)->Ok_0;
            assert(p@.warnings =~= m.warnings);
        }
        Ok(p)
    }
}

// ---------------------------------------------------------------------------
// Loading from files
// ---------------------------------------------------------------------------

/// A path without its trailing separators and trailing `.` components, as
/// path components see it (`a/b/` and `a/b/.` both name `b`).
pub open spec fn strip_path_tail(p: Seq<char>) -> Seq<char>
    decreases p.len(),
{
    if p.len() > 1 && p.last() == '/' {
        strip_path_tail(p.drop_last())
    } else if p.len() > 1 && p.last() == '.' && p[p.len() - 2] == '/' {
        strip_path_tail(p.drop_last().drop_last())
    } else {
        p
    }
}

/// The index of the last occurrence of `c` in `s` before `end`, or `-1`.
pub open spec fn last_index_before(s: Seq<char>, c: char, end: int) -> int
    decreases end,
{
    if end <= 0 {
        -1
    } else if s[end - 1] == c {
        end - 1
    } else {
        last_index_before(s, c, end - 1)
    }
}

/// The final component of a path, when it is a plain name (not empty, `.` or
/// `..`).
pub open spec fn path_file_name(p: Seq<char>) -> Option<Seq<char>> {
    let q = strip_path_tail(p);
    let name = q.subrange(last_index_before(q, '/', q.len() as int) + 1, q.len() as int);
    if name.len() == 0 || name == seq!['.'] || name == seq!['.', '.'] {
        None
    } else {
        Some(name)
    }
}

/// The extension of a path: the part of its file name after the last `.`,
/// when that dot is not the name's first character.
pub open spec fn path_extension(p: Seq<char>) -> Option<Seq<char>> {
    match path_file_name(p) {
        None => None,
        Some(name) => {
            let d = last_index_before(name, '.', name.len() as int);
            if d <= 0 {
                None
            } else {
                Some(name.subrange(d + 1, name.len() as int))
            }
        },
    }
}

/// The format [`Pdk::from_path`] picks: TOML for a `.toml` extension in any
/// ASCII case, JSON otherwise.
pub open spec fn path_format(p: Seq<char>) -> PdkFormat {
    match path_extension(p) {
        Some(e) => if eq_ignore_case(e, "toml"@) {
            PdkFormat::Toml
        } else {
            PdkFormat::Json
        },
        None => PdkFormat::Json,
    }
}

/// The outcome of loading a PDK file in `format`: a failed read is
/// `ApiError::Io` naming the path, a successful one is parsed.
pub open spec fn file_outcome(path: Seq<char>, read: Result<Seq<char>, Seq<char>>, format: PdkFormat, r: Result<Pdk, ApiError>) -> bool {
    match read {
        Err(m) => r matches Err(ApiError::Io(t)) && t@ == path + ": "@ + m,
        Ok(text) => match r {
            Ok(p) => spec_pdk(text, format) == Ok::<PdkModel, Seq<char>>(p@),
            Err(e) => e matches ApiError::Pdk(m) && spec_pdk(text, format) == Err::<PdkModel, Seq<char>>(m@),
        },
    }
}

/// The text of a read result, or its error message.
pub open spec fn read_view(read: Result<String, String>) -> Result<Seq<char>, Seq<char>> {
    match read {
        Ok(t) => Ok(t@),
        Err(m) => Err(m@),
    }
}

fn strip_tail_exec(p: &Vec<char>) -> (n: usize)
    ensures
        n <= p@.len(),
        p@.take(n as int) == strip_path_tail(p@),
{
    let mut n = p.len();
    proof {
        assert(p@.take(n as int) =~= p@);
    }
    while n > 1 && (p[n - 1] == '/' || (p[n - 1] == '.' && p[n - 2] == '/'))
        invariant
            n <= p@.len(),
            strip_path_tail(p@.take(n as int)) == strip_path_tail(p@),
        decreases n,
    {
        let ghost q = p@.take(n as int);
        if p[n - 1] == '/' {
            proof {
                assert(q.drop_last() =~= p@.take(n - 1));
            }
            n = n - 1;
        } else {
            proof {
                assert(q.drop_last().drop_last() =~= p@.take(n - 2));
            }
            n = n - 2;
        }
    }
    n
}

fn last_index_exec(s: &Vec<char>, c: char, end: usize) -> (r: Option<usize>)
    requires
        end <= s@.len(),
    ensures
        match r {
            Some(i) => i as int == last_index_before(s@, c, end as int),
            None => last_index_before(s@, c, end as int) == -1,
        },
{
    let mut e = end;
    while e > 0
        invariant
            e <= end <= s@.len(),
            last_index_before(s@, c, e as int) == last_index_before(s@, c, end as int),
        decreases e,
    {
        if s[e - 1] == c {
            return Some(e - 1);
        }
        e = e - 1;
    }
    None
}

proof fn lemma_last_index_prefix(s: Seq<char>, c: char, end: int, n: int)
    requires
        0 <= end <= n <= s.len(),
    ensures
        last_index_before(s.take(n), c, end) == last_index_before(s, c, end),
    decreases end,
{
    if end > 0 {
        lemma_last_index_prefix(s, c, end - 1, n);
    }
}

proof fn lemma_last_index_range(s: Seq<char>, c: char, end: int)
    requires
        0 <= end <= s.len(),
    ensures
        -1 <= last_index_before(s, c, end) < end,
    decreases end,
{
    if end > 0 {
        lemma_last_index_range(s, c, end - 1);
    }
}

/// The format a path's extension selects (see [`path_format`]).
fn format_of_path(path: &str) -> (f: PdkFormat)
    ensures
        f == path_format(path@),
{
    let p = chars_of(path);
    let n = strip_tail_exec(&p);
    let ghost q = p@.take(n as int);
    proof {
        lemma_last_index_prefix(p@, '/', n as int, n as int);
        lemma_last_index_range(q, '/', n as int);
    }
    let start = match last_index_exec(&p, '/', n) {
        Some(i) => i + 1,
        None => 0,
    };
    let name = copy_range(&p, start, n);
    proof {
        assert(name@ =~= q.subrange(last_index_before(q, '/', q.len() as int) + 1, q.len() as int));
    }
    if name.len() == 0 || (name.len() == 1 && name[0] == '.') || (name.len() == 2 && name[0] == '.'
        && name[1] == '.') {
        proof {
            if name.len() == 1 {
                assert(name@ =~= seq!['.']);
            }
            if name.len() == 2 {
                assert(name@ =~= seq!['.', '.']);
            }
        }
        return PdkFormat::Json;
    }
    proof {
        assert(name@ != seq!['.']);
        assert(name@ != seq!['.', '.']);
        assert(path_file_name(path@) == Some(name@));
    }
    let d = match last_index_exec(&name, '.', name.len()) {
        Some(i) => i,
        None => {
            return PdkFormat::Json;
        },
    };
    if d == 0 {
        return PdkFormat::Json;
    }
    proof {
        lemma_last_index_range(name@, '.', name@.len() as int);
    }
    let ext = copy_range(&name, d + 1, name.len());
    let toml = chars_of("toml");
    if equal_ignore_case(&ext, &toml) {
        PdkFormat::Toml
    } else {
        PdkFormat::Json
    }
}

impl Pdk {
    /// Load a PDK in `format` from the outcome of reading the file at `path`
    /// (its text, or the read error's message).
    fn from_read(path: &str, read: Result<String, String>, format: PdkFormat) -> (r: Result<Pdk, ApiError>)
        ensures
            file_outcome(path@, read_view(read), format, r),
    {
        match read {
            Err(m) => {
                let mut t = String::from_str(path);
                t.append(": ");
                t.append(m.as_str());
                Err(ApiError::Io(t))
            },
            Ok(text) => Self::parse(text.as_str(), format),
        }
    }

    /// Parse a PDK from a JSON file, given the outcome of reading it.
    pub fn from_json_file(path: &str, read: Result<String, String>) -> (r: Result<Pdk, ApiError>)
        ensures
            file_outcome(path@, read_view(read), PdkFormat::Json, r),
    {
        Self::from_read(path, read, PdkFormat::Json)
    }

    /// Parse a PDK from a TOML file, given the outcome of reading it.
    pub fn from_toml_file(path: &str, read: Result<String, String>) -> (r: Result<Pdk, ApiError>)
        ensures
            file_outcome(path@, read_view(read), PdkFormat::Toml, r),
    {
        Self::from_read(path, read, PdkFormat::Toml)
    }

    /// Load a PDK file, choosing the format from its extension (`.toml` is
    /// TOML, anything else JSON), given the outcome of reading it.
    pub fn from_path(path: &str, read: Result<String, String>) -> (r: Result<Pdk, ApiError>)
        ensures
            file_outcome(path@, read_view(read), path_format(path@), r),
    {
        let format = format_of_path(path);
        Self::from_read(path, read, format)
    }
}

} // verus!
