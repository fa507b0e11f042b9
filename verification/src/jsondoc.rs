//! The `file_sd` document encoding: a JSON array of group objects, each
//! `{"labels":{...},"targets":[...]}`. The renderer and parser are exact:
//! the encoding of a group list is pinned character by character, and
//! parsing inverts rendering.

use vstd::prelude::*;
use crate::labels::Labels;
use crate::strutil::push_char;
use crate::target::{GroupModel, TargetGroup, spec_job_of};

verus! {

/// The lower-case hexadecimal digit for `n`.
pub open spec fn hex_digit(n: int) -> char {
    if n == 0 {
        '0'
    } else if n == 1 {
        '1'
    } else if n == 2 {
        '2'
    } else if n == 3 {
        '3'
    } else if n == 4 {
        '4'
    } else if n == 5 {
        '5'
    } else if n == 6 {
        '6'
    } else if n == 7 {
        '7'
    } else if n == 8 {
        '8'
    } else if n == 9 {
        '9'
    } else if n == 10 {
        'a'
    } else if n == 11 {
        'b'
    } else if n == 12 {
        'c'
    } else if n == 13 {
        'd'
    } else if n == 14 {
        'e'
    } else {
        'f'
    }
}

/// How one character appears inside a JSON string literal: quote and
/// backslash are escaped, control characters become `\u00XX`, everything
/// else stands as itself.
pub open spec fn json_escape_char(c: char) -> Seq<char> {
    if c == '"' {
        seq!['\\', '"']
    } else if c == '\\' {
        seq!['\\', '\\']
    } else if (c as u32) < 32 {
        seq!['\\', 'u', '0', '0', hex_digit((c as u32) as int / 16), hex_digit(
            (c as u32) as int % 16,
        )]
    } else {
        seq![c]
    }
}

/// The escaped form of `s` from position `i` on.
pub open spec fn json_escape_from(s: Seq<char>, i: int) -> Seq<char>
    decreases s.len() - i,
{
    if i < 0 || i >= s.len() {
        Seq::<char>::empty()
    } else {
        json_escape_char(s[i]) + json_escape_from(s, i + 1)
    }
}

/// A JSON string literal holding `s`.
pub open spec fn json_string(s: Seq<char>) -> Seq<char> {
    seq!['"'] + json_escape_from(s, 0) + seq!['"']
}

/// The `,"t" ...` tail of a string array, from element `i` on.
pub open spec fn json_targets_rest(ts: Seq<Seq<char>>, i: int) -> Seq<char>
    decreases ts.len() - i,
{
    if i < 0 || i >= ts.len() {
        Seq::<char>::empty()
    } else {
        seq![','] + json_string(ts[i]) + json_targets_rest(ts, i + 1)
    }
}

/// A JSON array of strings.
pub open spec fn json_targets_arr(ts: Seq<Seq<char>>) -> Seq<char> {
    if ts.len() == 0 {
        seq!['[', ']']
    } else {
        seq!['['] + json_string(ts[0]) + json_targets_rest(ts, 1) + seq![']']
    }
}

/// One `"key":"value"` member.
pub open spec fn json_label_pair(p: (Seq<char>, Seq<char>)) -> Seq<char> {
    json_string(p.0) + seq![':'] + json_string(p.1)
}

/// The `,"k":"v" ...` tail of a label object, from pair `i` on.
pub open spec fn json_labels_rest(ps: Seq<(Seq<char>, Seq<char>)>, i: int) -> Seq<char>
    decreases ps.len() - i,
{
    if i < 0 || i >= ps.len() {
        Seq::<char>::empty()
    } else {
        seq![','] + json_label_pair(ps[i]) + json_labels_rest(ps, i + 1)
    }
}

/// A JSON object of string-to-string members, in the given pair order.
pub open spec fn json_labels_obj(ps: Seq<(Seq<char>, Seq<char>)>) -> Seq<char> {
    if ps.len() == 0 {
        seq!['{', '}']
    } else {
        seq!['{'] + json_label_pair(ps[0]) + json_labels_rest(ps, 1) + seq!['}']
    }
}

/// One group object: `{"labels":{...},"targets":[...]}`. The group's job
/// is not emitted as a top-level key; it lives in `labels["job"]`.
pub open spec fn json_group(g: GroupModel) -> Seq<char> {
    seq!['{', '"', 'l', 'a', 'b', 'e', 'l', 's', '"', ':'] + json_labels_obj(g.labels) + seq![
        ',',
        '"',
        't',
        'a',
        'r',
        'g',
        'e',
        't',
        's',
        '"',
        ':',
    ] + json_targets_arr(g.targets) + seq!['}']
}

/// The `,{...} ...` tail of the group array, from group `i` on.
pub open spec fn json_groups_rest(gs: Seq<GroupModel>, i: int) -> Seq<char>
    decreases gs.len() - i,
{
    if i < 0 || i >= gs.len() {
        Seq::<char>::empty()
    } else {
        seq![','] + json_group(gs[i]) + json_groups_rest(gs, i + 1)
    }
}

/// The whole document: a JSON array of group objects, in order.
pub open spec fn json_groups(gs: Seq<GroupModel>) -> Seq<char> {
    if gs.len() == 0 {
        seq!['[', ']']
    } else {
        seq!['['] + json_group(gs[0]) + json_groups_rest(gs, 1) + seq![']']
    }
}

/// The executable lower-case hexadecimal digit.
fn hex_digit_exec(n: u32) -> (c: char)
    requires
        n < 16,
    ensures
        c == hex_digit(n as int),
{
    match n {
        0 => '0',
        1 => '1',
        2 => '2',
        3 => '3',
        4 => '4',
        5 => '5',
        6 => '6',
        7 => '7',
        8 => '8',
        9 => '9',
        10 => 'a',
        11 => 'b',
        12 => 'c',
        13 => 'd',
        14 => 'e',
        _ => 'f',
    }
}

/// Appends the escaped form of `s` to `out`.
fn push_escaped(out: &mut String, s: &str)
    ensures
        final(out)@ == old(out)@ + json_escape_from(s@, 0),
{
    let n = s.unicode_len();
    let mut i: usize = 0;
    while i < n
        invariant
            n == s@.len(),
            0 <= i <= n,
            out@ + json_escape_from(s@, i as int) == old(out)@ + json_escape_from(s@, 0),
        decreases n - i,
    {
        let c = s.get_char(i);
        let ghost before = out@;
        if c == '"' {
            push_char(out, '\\');
            push_char(out, '"');
        } else if c == '\\' {
            push_char(out, '\\');
            push_char(out, '\\');
        } else {
            let u = c as u32;
            if u < 32 {
                push_char(out, '\\');
                push_char(out, 'u');
                push_char(out, '0');
                push_char(out, '0');
                push_char(out, hex_digit_exec(u / 16));
                push_char(out, hex_digit_exec(u % 16));
            } else {
                push_char(out, c);
            }
        }
        proof {
            assert(out@ =~= before + json_escape_char(s@[i as int]));
            assert(out@ + json_escape_from(s@, i + 1) =~= before + json_escape_from(s@, i as int));
        }
        i += 1;
    }
    proof {
        assert(out@ =~= old(out)@ + json_escape_from(s@, 0));
    }
}

/// Appends the JSON string literal holding `s` to `out`.
fn push_json_string(out: &mut String, s: &str)
    ensures
        final(out)@ == old(out)@ + json_string(s@),
{
    push_char(out, '"');
    push_escaped(out, s);
    push_char(out, '"');
    proof {
        assert(out@ =~= old(out)@ + json_string(s@));
    }
}

/// Appends the JSON array of the strings of `ts` to `out`.
fn push_targets_arr(out: &mut String, ts: &Vec<String>)
    ensures
        final(out)@ == old(out)@ + json_targets_arr(ts.deep_view()),
{
    let ghost tsd = ts.deep_view();
    push_char(out, '[');
    if ts.len() > 0 {
        proof {
            assert(tsd[0] == ts@[0]@);
        }
        push_json_string(out, ts[0].as_str());
        let n = ts.len();
        let mut i: usize = 1;
        while i < n
            invariant
                n == tsd.len(),
                n == ts@.len(),
                tsd == ts.deep_view(),
                1 <= i <= n,
                out@ + json_targets_rest(tsd, i as int) == old(out)@ + seq!['['] + json_string(
                    tsd[0],
                ) + json_targets_rest(tsd, 1),
            decreases n - i,
        {
            let ghost before = out@;
            push_char(out, ',');
            proof {
                assert(tsd[i as int] == ts@[i as int]@);
            }
            push_json_string(out, ts[i].as_str());
            proof {
                assert(out@ =~= before + (seq![','] + json_string(tsd[i as int])));
                assert(out@ + json_targets_rest(tsd, i + 1) =~= before + json_targets_rest(
                    tsd,
                    i as int,
                ));
            }
            i += 1;
        }
    }
    push_char(out, ']');
    proof {
        assert(out@ =~= old(out)@ + json_targets_arr(tsd));
    }
}

/// Appends the JSON object of the label pairs of `labels` to `out`.
fn push_labels_obj(out: &mut String, labels: &crate::labels::Labels)
    ensures
        final(out)@ == old(out)@ + json_labels_obj(labels@),
{
    let ghost ps = labels@;
    push_char(out, '{');
    if labels.len() > 0 {
        let ghost b0 = out@;
        push_json_string(out, labels.key_at(0).as_str());
        push_char(out, ':');
        push_json_string(out, labels.value_at(0).as_str());
        proof {
            assert(out@ =~= b0 + json_label_pair(ps[0]));
        }
        let n = labels.len();
        let mut i: usize = 1;
        while i < n
            invariant
                n == ps.len(),
                ps == labels@,
                1 <= i <= n,
                out@ + json_labels_rest(ps, i as int) == old(out)@ + seq!['{'] + json_label_pair(
                    ps[0],
                ) + json_labels_rest(ps, 1),
            decreases n - i,
        {
            let ghost before = out@;
            push_char(out, ',');
            push_json_string(out, labels.key_at(i).as_str());
            push_char(out, ':');
            push_json_string(out, labels.value_at(i).as_str());
            proof {
                assert(out@ =~= before + (seq![','] + json_label_pair(ps[i as int])));
                assert(out@ + json_labels_rest(ps, i + 1) =~= before + json_labels_rest(
                    ps,
                    i as int,
                ));
            }
            i += 1;
        }
    }
    push_char(out, '}');
    proof {
        assert(out@ =~= old(out)@ + json_labels_obj(ps));
    }
}

/// Appends one group object to `out`.
fn push_group(out: &mut String, g: &TargetGroup)
    ensures
        final(out)@ == old(out)@ + json_group(g@),
{
    out.append("{\"labels\":");
    proof {
        reveal_strlit("{\"labels\":");
        assert(out@ =~= old(out)@ + seq!['{', '"', 'l', 'a', 'b', 'e', 'l', 's', '"', ':']);
    }
    push_labels_obj(out, g.labels());
    out.append(",\"targets\":");
    proof {
        reveal_strlit(",\"targets\":");
    }
    push_targets_arr(out, g.targets());
    push_char(out, '}');
    proof {
        assert(out@ =~= old(out)@ + json_group(g@));
    }
}

/// Renders the whole group list as its compact JSON document.
pub fn render_groups(groups: &Vec<TargetGroup>) -> (r: String)
    ensures
        r@ == json_groups(groups.deep_view()),
{
    let ghost gsd = groups.deep_view();
    let mut out = String::new();
    push_char(&mut out, '[');
    if groups.len() > 0 {
        proof {
            assert(gsd[0] == groups@[0]@);
        }
        push_group(&mut out, &groups[0]);
        let n = groups.len();
        let mut i: usize = 1;
        while i < n
            invariant
                n == gsd.len(),
                n == groups@.len(),
                gsd == groups.deep_view(),
                1 <= i <= n,
                out@ + json_groups_rest(gsd, i as int) == seq!['['] + json_group(gsd[0])
                    + json_groups_rest(gsd, 1),
            decreases n - i,
        {
            let ghost before = out@;
            push_char(&mut out, ',');
            proof {
                assert(gsd[i as int] == groups@[i as int]@);
            }
            push_group(&mut out, &groups[i]);
            proof {
                assert(out@ =~= before + (seq![','] + json_group(gsd[i as int])));
                assert(out@ + json_groups_rest(gsd, i + 1) =~= before + json_groups_rest(
                    gsd,
                    i as int,
                ));
            }
            i += 1;
        }
    }
    push_char(&mut out, ']');
    proof {
        assert(out@ =~= json_groups(gsd));
    }
    out
}

/// Appends the pretty string array of `ts` to `out`.
fn push_pp_targets(out: &mut String, ts: &Vec<String>)
    ensures
        final(out)@ == old(out)@ + pp_targets_arr(ts.deep_view()),
{
    let ghost tsd = ts.deep_view();
    push_char(out, '[');
    if ts.len() > 0 {
        proof {
            assert(tsd[0] == ts@[0]@);
        }
        push_nl_indent(out, 6);
        push_json_string(out, ts[0].as_str());
        let n = ts.len();
        let mut i: usize = 1;
        while i < n
            invariant
                n == tsd.len(),
                n == ts@.len(),
                tsd == ts.deep_view(),
                1 <= i <= n,
                out@ + pp_targets_rest(tsd, i as int) == old(out)@ + seq!['['] + nl_indent(6)
                    + json_string(tsd[0]) + pp_targets_rest(tsd, 1),
            decreases n - i,
        {
            let ghost before = out@;
            push_char(out, ',');
            push_nl_indent(out, 6);
            proof {
                assert(tsd[i as int] == ts@[i as int]@);
            }
            push_json_string(out, ts[i].as_str());
            proof {
                assert(out@ =~= before + (seq![','] + nl_indent(6) + json_string(tsd[i as int])));
                assert(out@ + pp_targets_rest(tsd, i + 1) =~= before + pp_targets_rest(
                    tsd,
                    i as int,
                ));
            }
            i += 1;
        }
        push_nl_indent(out, 4);
    }
    push_char(out, ']');
    proof {
        assert(out@ =~= old(out)@ + pp_targets_arr(tsd));
    }
}

/// Appends the pretty label object of `labels` to `out`.
fn push_pp_labels(out: &mut String, labels: &Labels)
    ensures
        final(out)@ == old(out)@ + pp_labels_obj(labels@),
{
    let ghost ps = labels@;
    push_char(out, '{');
    if labels.len() > 0 {
        let ghost b0 = out@;
        push_nl_indent(out, 6);
        push_json_string(out, labels.key_at(0).as_str());
        push_char(out, ':');
        push_char(out, ' ');
        push_json_string(out, labels.value_at(0).as_str());
        proof {
            assert(out@ =~= b0 + nl_indent(6) + pp_label_pair(ps[0]));
        }
        let n = labels.len();
        let mut i: usize = 1;
        while i < n
            invariant
                n == ps.len(),
                ps == labels@,
                1 <= i <= n,
                out@ + pp_labels_rest(ps, i as int) == old(out)@ + seq!['{'] + nl_indent(6)
                    + pp_label_pair(ps[0]) + pp_labels_rest(ps, 1),
            decreases n - i,
        {
            let ghost before = out@;
            push_char(out, ',');
            push_nl_indent(out, 6);
            push_json_string(out, labels.key_at(i).as_str());
            push_char(out, ':');
            push_char(out, ' ');
            push_json_string(out, labels.value_at(i).as_str());
            proof {
                assert(out@ =~= before + (seq![','] + nl_indent(6) + pp_label_pair(ps[i as int])));
                assert(out@ + pp_labels_rest(ps, i + 1) =~= before + pp_labels_rest(ps, i as int));
            }
            i += 1;
        }
        push_nl_indent(out, 4);
    }
    push_char(out, '}');
    proof {
        assert(out@ =~= old(out)@ + pp_labels_obj(ps));
    }
}

/// Appends one pretty group object to `out`.
fn push_pp_group(out: &mut String, g: &TargetGroup)
    ensures
        final(out)@ == old(out)@ + pp_group(g@),
{
    push_char(out, '{');
    push_nl_indent(out, 4);
    out.append("\"labels\": ");
    proof {
        reveal_strlit("\"labels\": ");
        assert(out@ =~= old(out)@ + seq!['{'] + nl_indent(4) + seq![
            '"',
            'l',
            'a',
            'b',
            'e',
            'l',
            's',
            '"',
            ':',
            ' ',
        ]);
    }
    push_pp_labels(out, g.labels());
    push_char(out, ',');
    push_nl_indent(out, 4);
    out.append("\"targets\": ");
    proof {
        reveal_strlit("\"targets\": ");
    }
    push_pp_targets(out, g.targets());
    push_nl_indent(out, 2);
    push_char(out, '}');
    proof {
        assert(out@ =~= old(out)@ + pp_group(g@));
    }
}

/// Renders the whole group list as its pretty JSON document.
pub fn render_groups_pretty(groups: &Vec<TargetGroup>) -> (r: String)
    ensures
        r@ == pp_groups(groups.deep_view()),
{
    let ghost gsd = groups.deep_view();
    let mut out = String::new();
    push_char(&mut out, '[');
    if groups.len() > 0 {
        proof {
            assert(gsd[0] == groups@[0]@);
        }
        push_nl_indent(&mut out, 2);
        push_pp_group(&mut out, &groups[0]);
        let n = groups.len();
        let mut i: usize = 1;
        while i < n
            invariant
                n == gsd.len(),
                n == groups@.len(),
                gsd == groups.deep_view(),
                1 <= i <= n,
                out@ + pp_groups_rest(gsd, i as int) == seq!['['] + nl_indent(2) + pp_group(
                    gsd[0],
                ) + pp_groups_rest(gsd, 1),
            decreases n - i,
        {
            let ghost before = out@;
            push_char(&mut out, ',');
            push_nl_indent(&mut out, 2);
            proof {
                assert(gsd[i as int] == groups@[i as int]@);
            }
            push_pp_group(&mut out, &groups[i]);
            proof {
                assert(out@ =~= before + (seq![','] + nl_indent(2) + pp_group(gsd[i as int])));
                assert(out@ + pp_groups_rest(gsd, i + 1) =~= before + pp_groups_rest(
                    gsd,
                    i as int,
                ));
            }
            i += 1;
        }
        push_nl_indent(&mut out, 0);
    }
    push_char(&mut out, ']');
    proof {
        assert(out@ =~= pp_groups(gsd));
    }
    out
}

/// The numeric value of a hexadecimal digit, if `c` is one.
pub open spec fn hex_val(c: char) -> Option<int> {
    let u = c as u32;
    if 48 <= u && u <= 57 {
        Option::Some(u - 48)
    } else if 97 <= u && u <= 102 {
        Option::Some(u - 97 + 10)
    } else if 65 <= u && u <= 70 {
        Option::Some(u - 65 + 10)
    } else {
        Option::None
    }
}

/// Parses the inside of a JSON string literal from position `i`,
/// accumulating into `acc`, up to and including the closing quote. The
/// fuel only bounds recursion; any value at least the remaining length
/// suffices.
pub open spec fn spec_parse_string_chars(
    s: Seq<char>,
    i: int,
    acc: Seq<char>,
    fuel: nat,
) -> Option<(Seq<char>, int)>
    decreases fuel,
{
    if fuel == 0 {
        Option::None
    } else if i < 0 || i >= s.len() {
        Option::None
    } else if s[i] == '"' {
        Option::Some((acc, i + 1))
    } else if s[i] == '\\' {
        if i + 1 >= s.len() {
            Option::None
        } else {
            let e = s[i + 1];
            if e == '"' {
                spec_parse_string_chars(s, i + 2, acc.push('"'), (fuel - 1) as nat)
            } else if e == '\\' {
                spec_parse_string_chars(s, i + 2, acc.push('\\'), (fuel - 1) as nat)
            } else if e == '/' {
                spec_parse_string_chars(s, i + 2, acc.push('/'), (fuel - 1) as nat)
            } else if e == 'n' {
                spec_parse_string_chars(s, i + 2, acc.push('\n'), (fuel - 1) as nat)
            } else if e == 't' {
                spec_parse_string_chars(s, i + 2, acc.push('\t'), (fuel - 1) as nat)
            } else if e == 'r' {
                spec_parse_string_chars(s, i + 2, acc.push('\r'), (fuel - 1) as nat)
            } else if e == 'b' {
                spec_parse_string_chars(s, i + 2, acc.push('\u{8}'), (fuel - 1) as nat)
            } else if e == 'f' {
                spec_parse_string_chars(s, i + 2, acc.push('\u{c}'), (fuel - 1) as nat)
            } else if e == 'u' {
                if i + 5 >= s.len() {
                    Option::None
                } else {
                    match (hex_val(s[i + 2]), hex_val(s[i + 3]), hex_val(s[i + 4]), hex_val(
                        s[i + 5],
                    )) {
                        (
                            Option::Some(h1),
                            Option::Some(h2),
                            Option::Some(h3),
                            Option::Some(h4),
                        ) => {
                            let code = h1 * 4096 + h2 * 256 + h3 * 16 + h4;
                            if 0xD800 <= code && code < 0xE000 {
                                Option::None
                            } else {
                                spec_parse_string_chars(
                                    s,
                                    i + 6,
                                    acc.push((code as u32) as char),
                                    (fuel - 1) as nat,
                                )
                            }
                        },
                        _ => Option::None,
                    }
                }
            } else {
                Option::None
            }
        }
    } else if (s[i] as u32) < 32 {
        Option::None
    } else {
        spec_parse_string_chars(s, i + 1, acc.push(s[i]), (fuel - 1) as nat)
    }
}

/// Parses a JSON string literal starting at `i`.
pub open spec fn spec_parse_string(s: Seq<char>, i: int, fuel: nat) -> Option<(Seq<char>, int)> {
    if 0 <= i < s.len() && s[i] == '"' {
        spec_parse_string_chars(s, i + 1, Seq::<char>::empty(), fuel)
    } else {
        Option::None
    }
}

/// Parses the members of a non-empty label object from the start of its
/// first key, up to and including the closing brace.
pub open spec fn spec_parse_labels_entries(
    s: Seq<char>,
    i: int,
    acc: Seq<(Seq<char>, Seq<char>)>,
    fuel: nat,
) -> Option<(Seq<(Seq<char>, Seq<char>)>, int)>
    decreases fuel,
{
    if fuel == 0 {
        Option::None
    } else {
        match spec_parse_string(s, i, fuel) {
            Option::None => Option::None,
            Option::Some((k, i2)) => if i2 < s.len() && s[i2] == ':' {
                match spec_parse_string(s, i2 + 1, fuel) {
                    Option::None => Option::None,
                    Option::Some((v, i3)) => if i3 < s.len() && s[i3] == ',' {
                        spec_parse_labels_entries(s, i3 + 1, acc.push((k, v)), (fuel - 1) as nat)
                    } else if i3 < s.len() && s[i3] == '}' {
                        Option::Some((acc.push((k, v)), i3 + 1))
                    } else {
                        Option::None
                    },
                }
            } else {
                Option::None
            },
        }
    }
}

/// Parses a label object starting at `i`.
pub open spec fn spec_parse_labels(s: Seq<char>, i: int, fuel: nat) -> Option<
    (Seq<(Seq<char>, Seq<char>)>, int),
> {
    if 0 <= i < s.len() && s[i] == '{' {
        if i + 1 < s.len() && s[i + 1] == '}' {
            Option::Some((Seq::<(Seq<char>, Seq<char>)>::empty(), i + 2))
        } else {
            spec_parse_labels_entries(s, i + 1, Seq::<(Seq<char>, Seq<char>)>::empty(), fuel)
        }
    } else {
        Option::None
    }
}

/// Parses the elements of a non-empty string array from the start of its
/// first element, up to and including the closing bracket.
pub open spec fn spec_parse_targets_entries(
    s: Seq<char>,
    i: int,
    acc: Seq<Seq<char>>,
    fuel: nat,
) -> Option<(Seq<Seq<char>>, int)>
    decreases fuel,
{
    if fuel == 0 {
        Option::None
    } else {
        match spec_parse_string(s, i, fuel) {
            Option::None => Option::None,
            Option::Some((v, i2)) => if i2 < s.len() && s[i2] == ',' {
                spec_parse_targets_entries(s, i2 + 1, acc.push(v), (fuel - 1) as nat)
            } else if i2 < s.len() && s[i2] == ']' {
                Option::Some((acc.push(v), i2 + 1))
            } else {
                Option::None
            },
        }
    }
}

/// Parses a string array starting at `i`.
pub open spec fn spec_parse_targets(s: Seq<char>, i: int, fuel: nat) -> Option<
    (Seq<Seq<char>>, int),
> {
    if 0 <= i < s.len() && s[i] == '[' {
        if i + 1 < s.len() && s[i + 1] == ']' {
            Option::Some((Seq::<Seq<char>>::empty(), i + 2))
        } else {
            spec_parse_targets_entries(s, i + 1, Seq::<Seq<char>>::empty(), fuel)
        }
    } else {
        Option::None
    }
}

/// The opening framing of a group object.
pub open spec fn lit_group_open() -> Seq<char> {
    seq!['{', '"', 'l', 'a', 'b', 'e', 'l', 's', '"', ':']
}

/// The framing between a group's labels and its targets.
pub open spec fn lit_group_mid() -> Seq<char> {
    seq![',', '"', 't', 'a', 'r', 'g', 'e', 't', 's', '"', ':']
}

/// Parses one group object starting at `i`. The group's job is taken
/// from its `"job"` label, `"unknown"` when absent.
pub open spec fn spec_parse_group(s: Seq<char>, i: int, fuel: nat) -> Option<(GroupModel, int)> {
    if i < 0 || i + 10 > s.len() {
        Option::None
    } else if s.subrange(i, i + 10) != lit_group_open() {
        Option::None
    } else {
        match spec_parse_labels(s, i + 10, fuel) {
            Option::None => Option::None,
            Option::Some((ps, j)) => if j < 0 || j + 11 > s.len() {
                Option::None
            } else if s.subrange(j, j + 11) != lit_group_mid() {
                Option::None
            } else {
                match spec_parse_targets(s, j + 11, fuel) {
                    Option::None => Option::None,
                    Option::Some((ts, m)) => if 0 <= m < s.len() && s[m] == '}' {
                        Option::Some(
                            (GroupModel { job: spec_job_of(ps), labels: ps, targets: ts }, m + 1),
                        )
                    } else {
                        Option::None
                    },
                }
            },
        }
    }
}

/// Parses the elements of a non-empty group array from the start of its
/// first group, up to and including the closing bracket.
pub open spec fn spec_parse_groups_entries(
    s: Seq<char>,
    i: int,
    acc: Seq<GroupModel>,
    fuel: nat,
) -> Option<(Seq<GroupModel>, int)>
    decreases fuel,
{
    if fuel == 0 {
        Option::None
    } else {
        match spec_parse_group(s, i, fuel) {
            Option::None => Option::None,
            Option::Some((g, j)) => if j < s.len() && s[j] == ',' {
                spec_parse_groups_entries(s, j + 1, acc.push(g), (fuel - 1) as nat)
            } else if j < s.len() && s[j] == ']' {
                Option::Some((acc.push(g), j + 1))
            } else {
                Option::None
            },
        }
    }
}

/// Parses a whole compact document: a JSON array of group objects with
/// nothing after it.
pub open spec fn spec_parse_groups(s: Seq<char>) -> Option<Seq<GroupModel>> {
    if s.len() >= 2 && s[0] == '[' {
        if s.len() == 2 && s[1] == ']' {
            Option::Some(Seq::<GroupModel>::empty())
        } else {
            match spec_parse_groups_entries(s, 1, Seq::<GroupModel>::empty(), s.len() as nat) {
                Option::Some((gs, j)) => if j == s.len() {
                    Option::Some(gs)
                } else {
                    Option::None
                },
                Option::None => Option::None,
            }
        }
    } else {
        Option::None
    }
}

/// A line break followed by `n` spaces of indentation.
pub open spec fn nl_indent(n: int) -> Seq<char>
    decreases n,
{
    if n <= 0 {
        seq!['\n']
    } else {
        nl_indent(n - 1) + seq![' ']
    }
}

/// The `,` + line break + string tail of a pretty string array.
pub open spec fn pp_targets_rest(ts: Seq<Seq<char>>, i: int) -> Seq<char>
    decreases ts.len() - i,
{
    if i < 0 || i >= ts.len() {
        Seq::<char>::empty()
    } else {
        seq![','] + nl_indent(6) + json_string(ts[i]) + pp_targets_rest(ts, i + 1)
    }
}

/// A pretty string array: items on their own lines, indented by six.
pub open spec fn pp_targets_arr(ts: Seq<Seq<char>>) -> Seq<char> {
    if ts.len() == 0 {
        seq!['[', ']']
    } else {
        seq!['['] + nl_indent(6) + json_string(ts[0]) + pp_targets_rest(ts, 1) + nl_indent(4)
            + seq![']']
    }
}

/// One pretty `"key": "value"` member.
pub open spec fn pp_label_pair(p: (Seq<char>, Seq<char>)) -> Seq<char> {
    json_string(p.0) + seq![':', ' '] + json_string(p.1)
}

/// The `,` + line break + member tail of a pretty label object.
pub open spec fn pp_labels_rest(ps: Seq<(Seq<char>, Seq<char>)>, i: int) -> Seq<char>
    decreases ps.len() - i,
{
    if i < 0 || i >= ps.len() {
        Seq::<char>::empty()
    } else {
        seq![','] + nl_indent(6) + pp_label_pair(ps[i]) + pp_labels_rest(ps, i + 1)
    }
}

/// A pretty label object: members on their own lines, indented by six.
pub open spec fn pp_labels_obj(ps: Seq<(Seq<char>, Seq<char>)>) -> Seq<char> {
    if ps.len() == 0 {
        seq!['{', '}']
    } else {
        seq!['{'] + nl_indent(6) + pp_label_pair(ps[0]) + pp_labels_rest(ps, 1) + nl_indent(4)
            + seq!['}']
    }
}

/// One pretty group object, its two members indented by four.
pub open spec fn pp_group(g: GroupModel) -> Seq<char> {
    seq!['{'] + nl_indent(4) + seq!['"', 'l', 'a', 'b', 'e', 'l', 's', '"', ':', ' ']
        + pp_labels_obj(g.labels) + seq![','] + nl_indent(4) + seq![
        '"',
        't',
        'a',
        'r',
        'g',
        'e',
        't',
        's',
        '"',
        ':',
        ' ',
    ] + pp_targets_arr(g.targets) + nl_indent(2) + seq!['}']
}

/// The `,` + line break + group tail of the pretty document.
pub open spec fn pp_groups_rest(gs: Seq<GroupModel>, i: int) -> Seq<char>
    decreases gs.len() - i,
{
    if i < 0 || i >= gs.len() {
        Seq::<char>::empty()
    } else {
        seq![','] + nl_indent(2) + pp_group(gs[i]) + pp_groups_rest(gs, i + 1)
    }
}

/// The whole pretty document: groups on their own lines, indented by
/// two.
pub open spec fn pp_groups(gs: Seq<GroupModel>) -> Seq<char> {
    if gs.len() == 0 {
        seq!['[', ']']
    } else {
        seq!['['] + nl_indent(2) + pp_group(gs[0]) + pp_groups_rest(gs, 1) + nl_indent(0)
            + seq![']']
    }
}

/// Appends a line break and `n` spaces to `out`.
fn push_nl_indent(out: &mut String, n: usize)
    requires
        n == 0 || n == 2 || n == 4 || n == 6,
    ensures
        final(out)@ == old(out)@ + nl_indent(n as int),
{
    proof {
        reveal_with_fuel(nl_indent, 8);
    }
    if n == 0 {
        out.append("\n");
        proof {
            reveal_strlit("\n");
            assert(out@ =~= old(out)@ + nl_indent(0));
        }
    } else if n == 2 {
        out.append("\n  ");
        proof {
            reveal_strlit("\n  ");
            assert(out@ =~= old(out)@ + nl_indent(2));
        }
    } else if n == 4 {
        out.append("\n    ");
        proof {
            reveal_strlit("\n    ");
            assert(out@ =~= old(out)@ + nl_indent(4));
        }
    } else {
        out.append("\n      ");
        proof {
            reveal_strlit("\n      ");
            assert(out@ =~= old(out)@ + nl_indent(6));
        }
    }
}

/// Relies on std's `char::from_u32`: `Some` exactly for Unicode scalar
/// values (not a surrogate, not beyond the maximum), holding the
/// character with that value.
#[verifier::external_body]
fn char_from_u32(u: u32) -> (r: Option<char>)
    ensures
        r is Some <==> (u < 0xD800 || (0xE000 <= u && u <= 0x10FFFF)),
        r matches Some(c) ==> c as u32 == u,
{
    char::from_u32(u)
}

/// The executable hexadecimal digit value.
fn hex_val_exec(c: char) -> (r: Option<u32>)
    ensures
        match r {
            Option::Some(h) => hex_val(c) == Option::Some(h as int) && h < 16,
            Option::None => hex_val(c) is None,
        },
{
    let u = c as u32;
    if 48 <= u && u <= 57 {
        Some(u - 48)
    } else if 97 <= u && u <= 102 {
        Some(u - 97 + 10)
    } else if 65 <= u && u <= 70 {
        Some(u - 65 + 10)
    } else {
        None
    }
}

/// Whether the characters of `s` starting at `i` begin with `lit`.
fn match_lit(s: &str, i: usize, lit: &str) -> (r: bool)
    requires
        i <= s@.len(),
    ensures
        r == (i + lit@.len() <= s@.len() && s@.subrange(i as int, i as int + lit@.len() as int)
            =~= lit@),
{
    let n = s.unicode_len();
    let m = lit.unicode_len();
    if n - i < m {
        return false;
    }
    let mut k: usize = 0;
    while k < m
        invariant
            n == s@.len(),
            m == lit@.len(),
            i + m <= n,
            0 <= k <= m,
            forall|j: int| 0 <= j < k ==> s@[i + j] == lit@[j],
        decreases m - k,
    {
        if s.get_char(i + k) != lit.get_char(k) {
            assert(s@[i + k] != lit@[k as int]);
            assert(!(s@.subrange(i as int, i as int + lit@.len() as int) =~= lit@));
            return false;
        }
        k += 1;
    }
    proof {
        assert(s@.subrange(i as int, i as int + lit@.len() as int) =~= lit@);
    }
    true
}

/// Executable mirror of `spec_parse_string_chars`.
fn parse_string_chars(s: &str, i: usize, acc: String, fuel: u64) -> (r: Option<(String, usize)>)
    requires
        i <= s@.len(),
    ensures
        match r {
            Option::Some(p) => spec_parse_string_chars(s@, i as int, acc@, fuel as nat)
                == Option::Some((p.0@, p.1 as int)) && p.1 <= s@.len(),
            Option::None => spec_parse_string_chars(s@, i as int, acc@, fuel as nat) is None,
        },
    decreases fuel,
{
    if fuel == 0 {
        return None;
    }
    let n = s.unicode_len();
    if i >= n {
        return None;
    }
    let c = s.get_char(i);
    if c == '"' {
        return Some((acc, i + 1));
    }
    if c == '\\' {
        if i + 1 >= n {
            return None;
        }
        let e = s.get_char(i + 1);
        if e == 'u' {
            if n - i < 6 {
                return None;
            }
            let h1 = match hex_val_exec(s.get_char(i + 2)) {
                Some(h) => h,
                None => {
                    return None;
                },
            };
            let h2 = match hex_val_exec(s.get_char(i + 3)) {
                Some(h) => h,
                None => {
                    return None;
                },
            };
            let h3 = match hex_val_exec(s.get_char(i + 4)) {
                Some(h) => h,
                None => {
                    return None;
                },
            };
            let h4 = match hex_val_exec(s.get_char(i + 5)) {
                Some(h) => h,
                None => {
                    return None;
                },
            };
            let code = h1 * 4096 + h2 * 256 + h3 * 16 + h4;
            if 0xD800 <= code && code < 0xE000 {
                return None;
            }
            let ch = match char_from_u32(code) {
                Some(ch) => ch,
                None => {
                    return None;
                },
            };
            proof {
                vstd::utf8::char_u32_cast(ch, code);
                assert((code as int) == (code as u32) as int);
            }
            let mut a = acc;
            push_char(&mut a, ch);
            return parse_string_chars(s, i + 6, a, fuel - 1);
        }
        let rep: char = if e == '"' {
            '"'
        } else if e == '\\' {
            '\\'
        } else if e == '/' {
            '/'
        } else if e == 'n' {
            '\n'
        } else if e == 't' {
            '\t'
        } else if e == 'r' {
            '\r'
        } else if e == 'b' {
            '\u{8}'
        } else if e == 'f' {
            '\u{c}'
        } else {
            return None;
        };
        let mut a = acc;
        push_char(&mut a, rep);
        return parse_string_chars(s, i + 2, a, fuel - 1);
    }
    if (c as u32) < 32 {
        return None;
    }
    let mut a = acc;
    push_char(&mut a, c);
    parse_string_chars(s, i + 1, a, fuel - 1)
}

/// Executable mirror of `spec_parse_string`.
fn parse_string(s: &str, i: usize, fuel: u64) -> (r: Option<(String, usize)>)
    requires
        i <= s@.len(),
    ensures
        match r {
            Option::Some(p) => spec_parse_string(s@, i as int, fuel as nat) == Option::Some(
                (p.0@, p.1 as int),
            ) && p.1 <= s@.len(),
            Option::None => spec_parse_string(s@, i as int, fuel as nat) is None,
        },
{
    let n = s.unicode_len();
    if i >= n {
        return None;
    }
    if s.get_char(i) != '"' {
        return None;
    }
    parse_string_chars(s, i + 1, String::new(), fuel)
}

/// The label pairs a pair vector stands for.
pub open spec fn pairs_deep(v: Seq<(String, String)>) -> Seq<(Seq<char>, Seq<char>)> {
    Seq::new(v.len(), |i: int| (v[i].0@, v[i].1@))
}

/// Executable mirror of `spec_parse_labels_entries`.
fn parse_labels_entries(s: &str, i: usize, acc: Vec<(String, String)>, fuel: u64) -> (r: Option<
    (Vec<(String, String)>, usize),
>)
    requires
        i <= s@.len(),
    ensures
        match r {
            Option::Some(p) => spec_parse_labels_entries(
                s@,
                i as int,
                pairs_deep(acc@),
                fuel as nat,
            ) == Option::Some((pairs_deep(p.0@), p.1 as int)) && p.1 <= s@.len(),
            Option::None => spec_parse_labels_entries(
                s@,
                i as int,
                pairs_deep(acc@),
                fuel as nat,
            ) is None,
        },
    decreases fuel,
{
    if fuel == 0 {
        return None;
    }
    let n = s.unicode_len();
    let (k, i2) = match parse_string(s, i, fuel) {
        Some(p) => p,
        None => {
            return None;
        },
    };
    if i2 >= n {
        return None;
    }
    if s.get_char(i2) != ':' {
        return None;
    }
    let (v, i3) = match parse_string(s, i2 + 1, fuel) {
        Some(p) => p,
        None => {
            return None;
        },
    };
    if i3 >= n {
        return None;
    }
    let c3 = s.get_char(i3);
    let ghost kk = k@;
    let ghost vv = v@;
    let mut a = acc;
    a.push((k, v));
    proof {
        assert(pairs_deep(a@) =~= pairs_deep(acc@).push((kk, vv)));
    }
    if c3 == ',' {
        parse_labels_entries(s, i3 + 1, a, fuel - 1)
    } else if c3 == '}' {
        Some((a, i3 + 1))
    } else {
        None
    }
}

/// Executable mirror of `spec_parse_labels`.
fn parse_labels(s: &str, i: usize, fuel: u64) -> (r: Option<(Vec<(String, String)>, usize)>)
    requires
        i <= s@.len(),
    ensures
        match r {
            Option::Some(p) => spec_parse_labels(s@, i as int, fuel as nat) == Option::Some(
                (pairs_deep(p.0@), p.1 as int),
            ) && p.1 <= s@.len(),
            Option::None => spec_parse_labels(s@, i as int, fuel as nat) is None,
        },
{
    let n = s.unicode_len();
    if i >= n {
        return None;
    }
    if s.get_char(i) != '{' {
        return None;
    }
    if i + 1 < n && s.get_char(i + 1) == '}' {
        let e: Vec<(String, String)> = Vec::new();
        proof {
            assert(pairs_deep(e@) =~= Seq::<(Seq<char>, Seq<char>)>::empty());
        }
        return Some((e, i + 2));
    }
    let e: Vec<(String, String)> = Vec::new();
    proof {
        assert(pairs_deep(e@) =~= Seq::<(Seq<char>, Seq<char>)>::empty());
    }
    parse_labels_entries(s, i + 1, e, fuel)
}

/// Executable mirror of `spec_parse_targets_entries`.
fn parse_targets_entries(s: &str, i: usize, acc: Vec<String>, fuel: u64) -> (r: Option<
    (Vec<String>, usize),
>)
    requires
        i <= s@.len(),
    ensures
        match r {
            Option::Some(p) => spec_parse_targets_entries(
                s@,
                i as int,
                acc.deep_view(),
                fuel as nat,
            ) == Option::Some((p.0.deep_view(), p.1 as int)) && p.1 <= s@.len(),
            Option::None => spec_parse_targets_entries(
                s@,
                i as int,
                acc.deep_view(),
                fuel as nat,
            ) is None,
        },
    decreases fuel,
{
    if fuel == 0 {
        return None;
    }
    let n = s.unicode_len();
    let (v, i2) = match parse_string(s, i, fuel) {
        Some(p) => p,
        None => {
            return None;
        },
    };
    if i2 >= n {
        return None;
    }
    let c2 = s.get_char(i2);
    let ghost vv = v@;
    let mut a = acc;
    a.push(v);
    proof {
        assert(a.deep_view() =~= acc.deep_view().push(vv));
    }
    if c2 == ',' {
        parse_targets_entries(s, i2 + 1, a, fuel - 1)
    } else if c2 == ']' {
        Some((a, i2 + 1))
    } else {
        None
    }
}

/// Executable mirror of `spec_parse_targets`.
fn parse_targets(s: &str, i: usize, fuel: u64) -> (r: Option<(Vec<String>, usize)>)
    requires
        i <= s@.len(),
    ensures
        match r {
            Option::Some(p) => spec_parse_targets(s@, i as int, fuel as nat) == Option::Some(
                (p.0.deep_view(), p.1 as int),
            ) && p.1 <= s@.len(),
            Option::None => spec_parse_targets(s@, i as int, fuel as nat) is None,
        },
{
    let n = s.unicode_len();
    if i >= n {
        return None;
    }
    if s.get_char(i) != '[' {
        return None;
    }
    if i + 1 < n && s.get_char(i + 1) == ']' {
        let e: Vec<String> = Vec::new();
        proof {
            assert(e.deep_view() =~= Seq::<Seq<char>>::empty());
        }
        return Some((e, i + 2));
    }
    let e: Vec<String> = Vec::new();
    proof {
        assert(e.deep_view() =~= Seq::<Seq<char>>::empty());
    }
    parse_targets_entries(s, i + 1, e, fuel)
}

/// Executable mirror of `spec_parse_group`.
fn parse_group(s: &str, i: usize, fuel: u64) -> (r: Option<(TargetGroup, usize)>)
    requires
        i <= s@.len(),
    ensures
        match r {
            Option::Some(p) => spec_parse_group(s@, i as int, fuel as nat) == Option::Some(
                (p.0@, p.1 as int),
            ) && p.1 <= s@.len(),
            Option::None => spec_parse_group(s@, i as int, fuel as nat) is None,
        },
{
    let n = s.unicode_len();
    if n - i < 10 {
        return None;
    }
    if !match_lit(s, i, "{\"labels\":") {
        proof {
            reveal_strlit("{\"labels\":");
            assert("{\"labels\":"@ =~= lit_group_open());
        }
        return None;
    }
    proof {
        reveal_strlit("{\"labels\":");
        assert("{\"labels\":"@ =~= lit_group_open());
        assert(s@.subrange(i as int, i as int + 10) == lit_group_open());
    }
    let (ps, j) = match parse_labels(s, i + 10, fuel) {
        Some(p) => p,
        None => {
            return None;
        },
    };
    if n - j < 11 {
        return None;
    }
    if !match_lit(s, j, ",\"targets\":") {
        proof {
            reveal_strlit(",\"targets\":");
            assert(",\"targets\":"@ =~= lit_group_mid());
        }
        return None;
    }
    proof {
        reveal_strlit(",\"targets\":");
        assert(",\"targets\":"@ =~= lit_group_mid());
        assert(s@.subrange(j as int, j as int + 11) == lit_group_mid());
    }
    let (ts, m) = match parse_targets(s, j + 11, fuel) {
        Some(p) => p,
        None => {
            return None;
        },
    };
    if m >= n {
        return None;
    }
    if s.get_char(m) != '}' {
        return None;
    }
    let ghost psd = pairs_deep(ps@);
    let ghost tsd = ts.deep_view();
    let labels = Labels::from_pairs(ps);
    proof {
        assert(labels@ =~= psd);
    }
    let g = TargetGroup::from_parts(labels, ts);
    proof {
        assert(g@ =~= GroupModel { job: spec_job_of(psd), labels: psd, targets: tsd });
    }
    Some((g, m + 1))
}

/// Executable mirror of `spec_parse_groups_entries`.
fn parse_groups_entries(s: &str, i: usize, acc: Vec<TargetGroup>, fuel: u64) -> (r: Option<
    (Vec<TargetGroup>, usize),
>)
    requires
        i <= s@.len(),
    ensures
        match r {
            Option::Some(p) => spec_parse_groups_entries(
                s@,
                i as int,
                acc.deep_view(),
                fuel as nat,
            ) == Option::Some((p.0.deep_view(), p.1 as int)) && p.1 <= s@.len(),
            Option::None => spec_parse_groups_entries(
                s@,
                i as int,
                acc.deep_view(),
                fuel as nat,
            ) is None,
        },
    decreases fuel,
{
    if fuel == 0 {
        return None;
    }
    let n = s.unicode_len();
    let (g, j) = match parse_group(s, i, fuel) {
        Some(p) => p,
        None => {
            return None;
        },
    };
    if j >= n {
        return None;
    }
    let cj = s.get_char(j);
    let ghost gm = g@;
    let mut a = acc;
    a.push(g);
    proof {
        assert(a.deep_view() =~= acc.deep_view().push(gm));
    }
    if cj == ',' {
        parse_groups_entries(s, j + 1, a, fuel - 1)
    } else if cj == ']' {
        Some((a, j + 1))
    } else {
        None
    }
}

/// Parses a whole compact `file_sd` document back into its group list;
/// `None` exactly when the text is not such a document.
pub fn parse_groups(s: &str) -> (r: Option<Vec<TargetGroup>>)
    ensures
        match r {
            Option::Some(gs) => spec_parse_groups(s@) == Option::Some(gs.deep_view()),
            Option::None => spec_parse_groups(s@) is None,
        },
{
    let n = s.unicode_len();
    if n < 2 {
        return None;
    }
    if s.get_char(0) != '[' {
        return None;
    }
    if n == 2 && s.get_char(1) == ']' {
        let e: Vec<TargetGroup> = Vec::new();
        proof {
            assert(e.deep_view() =~= Seq::<GroupModel>::empty());
        }
        return Some(e);
    }
    let e: Vec<TargetGroup> = Vec::new();
    proof {
        assert(e.deep_view() =~= Seq::<GroupModel>::empty());
    }
    let fuel: u64 = n as u64;
    match parse_groups_entries(s, 1, e, fuel) {
        Some((gs, j)) => if j == n {
            Some(gs)
        } else {
            None
        },
        None => None,
    }
}

/// Skipping in two steps is skipping once.
proof fn lemma_skip_skip(s: Seq<char>, i: int, d: int)
    requires
        0 <= i,
        0 <= d,
        i + d <= s.len(),
    ensures
        s.skip(i + d) == s.skip(i).skip(d),
{
    assert forall|m: int| #![trigger s.skip(i + d)[m]]
        0 <= m < s.len() - i - d implies s.skip(i + d)[m] == s.skip(i).skip(d)[m] by {
        assert(s.skip(i + d)[m] == s[i + d + m]);
        assert(s.skip(i).skip(d)[m] == s.skip(i)[d + m]);
        assert(s.skip(i)[d + m] == s[i + d + m]);
    }
    assert(s.skip(i + d) =~= s.skip(i).skip(d));
}

/// Parsing a hexadecimal digit undoes rendering one.
proof fn lemma_hex_roundtrip(n: int)
    requires
        0 <= n < 16,
    ensures
        hex_val(hex_digit(n)) == Option::Some(n),
{
}

/// Parsing a string body undoes escaping: running the string-character
/// parser over the escaped tail of `v` (from `k`), followed by the
/// closing quote and anything else, yields the accumulated prefix plus
/// the tail, positioned right after the quote.
proof fn lemma_parse_chars_inv(
    s: Seq<char>,
    i: int,
    acc: Seq<char>,
    v: Seq<char>,
    k: int,
    rest: Seq<char>,
    fuel: nat,
)
    requires
        0 <= i <= s.len(),
        0 <= k <= v.len(),
        s.skip(i) == json_escape_from(v, k) + seq!['"'] + rest,
        fuel >= s.len() - i + 1,
    ensures
        spec_parse_string_chars(s, i, acc, fuel) == Option::Some(
            (acc + v.skip(k), i + json_escape_from(v, k).len() + 1),
        ),
    decreases v.len() - k,
{
    assert(s.skip(i).len() == s.len() - i);
    assert(s.skip(i).len() == json_escape_from(v, k).len() + 1 + rest.len());
    if k == v.len() {
        assert(json_escape_from(v, k).len() == 0);
        assert(s.skip(i)[0] == s[i]);
        assert(s[i] == '"');
        assert(acc + v.skip(k) =~= acc);
    } else {
        let c = v[k];
        assert(json_escape_from(v, k) == json_escape_char(c) + json_escape_from(v, k + 1));
        let e = json_escape_char(c);
        let tail = json_escape_from(v, k + 1) + seq!['"'] + rest;
        assert(s.skip(i) =~= e + tail);
        assert forall|m: int| 0 <= m < e.len() implies s[i + m] == e[m] by {
            assert(s.skip(i)[m] == s[i + m]);
        }
        if c == '"' {
            assert(s[i] == '\\' && s[i + 1] == '"');
            lemma_skip_skip(s, i, 2);
            assert(s.skip(i + 2) =~= json_escape_from(v, k + 1) + seq!['"'] + rest);
            lemma_parse_chars_inv(s, i + 2, acc.push(c), v, k + 1, rest, (fuel - 1) as nat);
            assert(acc.push(c) + v.skip(k + 1) =~= acc + v.skip(k));
        } else if c == '\\' {
            assert(s[i] == '\\' && s[i + 1] == '\\');
            lemma_skip_skip(s, i, 2);
            assert(s.skip(i + 2) =~= json_escape_from(v, k + 1) + seq!['"'] + rest);
            lemma_parse_chars_inv(s, i + 2, acc.push(c), v, k + 1, rest, (fuel - 1) as nat);
            assert(acc.push(c) + v.skip(k + 1) =~= acc + v.skip(k));
        } else if (c as u32) < 32 {
            let u = (c as u32) as int;
            assert(s[i] == '\\' && s[i + 1] == 'u' && s[i + 2] == '0' && s[i + 3] == '0');
            assert(s[i + 4] == hex_digit(u / 16) && s[i + 5] == hex_digit(u % 16));
            lemma_hex_roundtrip(u / 16);
            lemma_hex_roundtrip(u % 16);
            assert(hex_val(s[i + 2]) == Option::Some(0int));
            assert(hex_val(s[i + 3]) == Option::Some(0int));
            let code = 0 * 4096 + 0 * 256 + (u / 16) * 16 + u % 16;
            assert(code == u);
            vstd::utf8::char_u32_cast(c, c as u32);
            assert((code as u32) as char == c);
            lemma_skip_skip(s, i, 6);
            assert(s.skip(i + 6) =~= json_escape_from(v, k + 1) + seq!['"'] + rest);
            lemma_parse_chars_inv(s, i + 6, acc.push(c), v, k + 1, rest, (fuel - 1) as nat);
            assert(acc.push(c) + v.skip(k + 1) =~= acc + v.skip(k));
        } else {
            assert(s[i + 0] == e[0]);
            assert(s[i] == c);
            lemma_skip_skip(s, i, 1);
            assert(s.skip(i + 1) =~= json_escape_from(v, k + 1) + seq!['"'] + rest);
            lemma_parse_chars_inv(s, i + 1, acc.push(c), v, k + 1, rest, (fuel - 1) as nat);
            assert(acc.push(c) + v.skip(k + 1) =~= acc + v.skip(k));
        }
    }
}

/// Parsing a string literal undoes rendering one.
proof fn lemma_parse_string_inv(s: Seq<char>, i: int, v: Seq<char>, rest: Seq<char>, fuel: nat)
    requires
        0 <= i <= s.len(),
        s.skip(i) == json_string(v) + rest,
        fuel >= s.len() - i,
    ensures
        spec_parse_string(s, i, fuel) == Option::Some((v, i + json_string(v).len())),
{
    assert(s.skip(i).len() == s.len() - i);
    assert(s.skip(i).len() == json_string(v).len() + rest.len());
    assert(s.skip(i)[0] == s[i]);
    assert(s[i] == '"');
    lemma_skip_skip(s, i, 1);
    assert(s.skip(i + 1) =~= json_escape_from(v, 0) + seq!['"'] + rest);
    lemma_parse_chars_inv(s, i + 1, Seq::<char>::empty(), v, 0, rest, fuel);
    assert(Seq::<char>::empty() + v.skip(0) =~= v);
}

/// Parsing the members of a label object undoes rendering them.
proof fn lemma_parse_labels_entries_inv(
    s: Seq<char>,
    i: int,
    acc: Seq<(Seq<char>, Seq<char>)>,
    ps: Seq<(Seq<char>, Seq<char>)>,
    k: int,
    rest: Seq<char>,
    fuel: nat,
)
    requires
        0 <= i <= s.len(),
        0 <= k < ps.len(),
        s.skip(i) == json_label_pair(ps[k]) + json_labels_rest(ps, k + 1) + seq!['}'] + rest,
        fuel >= s.len() - i + 1,
    ensures
        spec_parse_labels_entries(s, i, acc, fuel) == Option::Some(
            (
                acc + ps.skip(k),
                i + json_label_pair(ps[k]).len() + json_labels_rest(ps, k + 1).len() + 1,
            ),
        ),
    decreases ps.len() - k,
{
    let key = ps[k].0;
    let val = ps[k].1;
    assert(s.skip(i).len() == s.len() - i);
    let rest1 = seq![':'] + json_string(val) + json_labels_rest(ps, k + 1) + seq!['}'] + rest;
    assert(s.skip(i) =~= json_string(key) + rest1);
    lemma_parse_string_inv(s, i, key, rest1, fuel);
    let i2 = i + json_string(key).len();
    assert(s[i2] == ':') by {
        assert(s.skip(i)[i2 - i] == s[i2]);
        assert((json_string(key) + rest1)[i2 - i] == rest1[0]);
    }
    lemma_skip_skip(s, i, i2 + 1 - i);
    let rest2 = json_labels_rest(ps, k + 1) + seq!['}'] + rest;
    assert(s.skip(i2 + 1) =~= json_string(val) + rest2);
    lemma_parse_string_inv(s, i2 + 1, val, rest2, fuel);
    let i3 = i2 + 1 + json_string(val).len();
    lemma_skip_skip(s, i, i3 - i);
    assert(s.skip(i3) =~= rest2);
    if k + 1 < ps.len() {
        assert(json_labels_rest(ps, k + 1) == seq![','] + json_label_pair(ps[k + 1])
            + json_labels_rest(ps, k + 2));
        assert(s[i3] == ',') by {
            assert(s.skip(i3)[0] == s[i3]);
            assert(rest2[0] == ',');
        }
        lemma_skip_skip(s, i, i3 + 1 - i);
        assert(s.skip(i3 + 1) =~= json_label_pair(ps[k + 1]) + json_labels_rest(ps, k + 2)
            + seq!['}'] + rest);
        lemma_parse_labels_entries_inv(
            s,
            i3 + 1,
            acc.push((key, val)),
            ps,
            k + 1,
            rest,
            (fuel - 1) as nat,
        );
        assert(acc.push((key, val)) + ps.skip(k + 1) =~= acc + ps.skip(k));
    } else {
        assert(json_labels_rest(ps, k + 1).len() == 0);
        assert(s[i3] == '}') by {
            assert(s.skip(i3)[0] == s[i3]);
            assert(rest2[0] == '}');
        }
        assert(acc.push((key, val)) =~= acc + ps.skip(k));
    }
}

/// Parsing a label object undoes rendering one.
proof fn lemma_parse_labels_inv(
    s: Seq<char>,
    i: int,
    ps: Seq<(Seq<char>, Seq<char>)>,
    rest: Seq<char>,
    fuel: nat,
)
    requires
        0 <= i <= s.len(),
        s.skip(i) == json_labels_obj(ps) + rest,
        fuel >= s.len() - i + 1,
    ensures
        spec_parse_labels(s, i, fuel) == Option::Some((ps, i + json_labels_obj(ps).len())),
{
    assert(s.skip(i).len() == s.len() - i);
    assert(s[i] == '{') by {
        assert(s.skip(i)[0] == s[i]);
    }
    if ps.len() == 0 {
        assert(s[i + 1] == '}') by {
            assert(s.skip(i)[1] == s[i + 1]);
        }
        assert(ps =~= Seq::<(Seq<char>, Seq<char>)>::empty());
    } else {
        assert(s[i + 1] == '"') by {
            assert(s.skip(i)[1] == s[i + 1]);
            assert(json_labels_obj(ps)[1] == json_label_pair(ps[0])[0]);
            assert(json_label_pair(ps[0])[0] == json_string(ps[0].0)[0]);
        }
        lemma_skip_skip(s, i, 1);
        assert(s.skip(i + 1) =~= json_label_pair(ps[0]) + json_labels_rest(ps, 1) + seq!['}']
            + rest);
        lemma_parse_labels_entries_inv(
            s,
            i + 1,
            Seq::<(Seq<char>, Seq<char>)>::empty(),
            ps,
            0,
            rest,
            fuel,
        );
        assert(Seq::<(Seq<char>, Seq<char>)>::empty() + ps.skip(0) =~= ps);
    }
}

/// Parsing the elements of a string array undoes rendering them.
proof fn lemma_parse_targets_entries_inv(
    s: Seq<char>,
    i: int,
    acc: Seq<Seq<char>>,
    ts: Seq<Seq<char>>,
    k: int,
    rest: Seq<char>,
    fuel: nat,
)
    requires
        0 <= i <= s.len(),
        0 <= k < ts.len(),
        s.skip(i) == json_string(ts[k]) + json_targets_rest(ts, k + 1) + seq![']'] + rest,
        fuel >= s.len() - i + 1,
    ensures
        spec_parse_targets_entries(s, i, acc, fuel) == Option::Some(
            (acc + ts.skip(k), i + json_string(ts[k]).len() + json_targets_rest(ts, k + 1).len()
                + 1),
        ),
    decreases ts.len() - k,
{
    let v = ts[k];
    assert(s.skip(i).len() == s.len() - i);
    let rest1 = json_targets_rest(ts, k + 1) + seq![']'] + rest;
    assert(s.skip(i) =~= json_string(v) + rest1);
    lemma_parse_string_inv(s, i, v, rest1, fuel);
    let i2 = i + json_string(v).len();
    lemma_skip_skip(s, i, i2 - i);
    assert(s.skip(i2) =~= rest1);
    if k + 1 < ts.len() {
        assert(json_targets_rest(ts, k + 1) == seq![','] + json_string(ts[k + 1])
            + json_targets_rest(ts, k + 2));
        assert(s[i2] == ',') by {
            assert(s.skip(i2)[0] == s[i2]);
            assert(rest1[0] == ',');
        }
        lemma_skip_skip(s, i, i2 + 1 - i);
        assert(s.skip(i2 + 1) =~= json_string(ts[k + 1]) + json_targets_rest(ts, k + 2)
            + seq![']'] + rest);
        lemma_parse_targets_entries_inv(
            s,
            i2 + 1,
            acc.push(v),
            ts,
            k + 1,
            rest,
            (fuel - 1) as nat,
        );
        assert(acc.push(v) + ts.skip(k + 1) =~= acc + ts.skip(k));
    } else {
        assert(json_targets_rest(ts, k + 1).len() == 0);
        assert(s[i2] == ']') by {
            assert(s.skip(i2)[0] == s[i2]);
            assert(rest1[0] == ']');
        }
        assert(acc.push(v) =~= acc + ts.skip(k));
    }
}

/// Parsing a string array undoes rendering one.
proof fn lemma_parse_targets_inv(
    s: Seq<char>,
    i: int,
    ts: Seq<Seq<char>>,
    rest: Seq<char>,
    fuel: nat,
)
    requires
        0 <= i <= s.len(),
        s.skip(i) == json_targets_arr(ts) + rest,
        fuel >= s.len() - i + 1,
    ensures
        spec_parse_targets(s, i, fuel) == Option::Some((ts, i + json_targets_arr(ts).len())),
{
    assert(s.skip(i).len() == s.len() - i);
    assert(s[i] == '[') by {
        assert(s.skip(i)[0] == s[i]);
    }
    if ts.len() == 0 {
        assert(s[i + 1] == ']') by {
            assert(s.skip(i)[1] == s[i + 1]);
        }
        assert(ts =~= Seq::<Seq<char>>::empty());
    } else {
        assert(s[i + 1] == '"') by {
            assert(s.skip(i)[1] == s[i + 1]);
            assert(json_targets_arr(ts)[1] == json_string(ts[0])[0]);
        }
        lemma_skip_skip(s, i, 1);
        assert(s.skip(i + 1) =~= json_string(ts[0]) + json_targets_rest(ts, 1) + seq![']']
            + rest);
        lemma_parse_targets_entries_inv(s, i + 1, Seq::<Seq<char>>::empty(), ts, 0, rest, fuel);
        assert(Seq::<Seq<char>>::empty() + ts.skip(0) =~= ts);
    }
}

/// Parsing one group object undoes rendering one, provided the group's
/// job agrees with its `"job"` label.
#[verifier::rlimit(100)]
proof fn lemma_parse_group_inv(s: Seq<char>, i: int, g: GroupModel, rest: Seq<char>, fuel: nat)
    requires
        0 <= i <= s.len(),
        s.skip(i) == json_group(g) + rest,
        fuel >= s.len() - i + 1,
        spec_job_of(g.labels) == g.job,
    ensures
        spec_parse_group(s, i, fuel) == Option::Some((g, i + json_group(g).len())),
{
    assert(s.skip(i).len() == s.len() - i);
    assert forall|m: int| 0 <= m < 10 implies s[i + m] == lit_group_open()[m] by {
        assert(s.skip(i)[m] == s[i + m]);
        assert(json_group(g)[m] == lit_group_open()[m]);
    }
    assert(s.subrange(i, i + 10) =~= lit_group_open());
    lemma_skip_skip(s, i, 10);
    let obj = json_labels_obj(g.labels);
    let rest1 = lit_group_mid() + json_targets_arr(g.targets) + seq!['}'] + rest;
    assert(s.skip(i + 10) =~= obj + rest1);
    lemma_parse_labels_inv(s, i + 10, g.labels, rest1, fuel);
    let j = i + 10 + obj.len();
    lemma_skip_skip(s, i, j - i);
    assert(s.skip(j) =~= rest1);
    assert forall|m: int| 0 <= m < 11 implies s[j + m] == lit_group_mid()[m] by {
        assert(s.skip(j)[m] == s[j + m]);
        assert(rest1[m] == lit_group_mid()[m]);
    }
    assert(s.subrange(j, j + 11) =~= lit_group_mid());
    lemma_skip_skip(s, i, j + 11 - i);
    let arr = json_targets_arr(g.targets);
    assert(s.skip(j + 11) =~= arr + (seq!['}'] + rest));
    lemma_parse_targets_inv(s, j + 11, g.targets, seq!['}'] + rest, fuel);
    let m = j + 11 + arr.len();
    lemma_skip_skip(s, i, m - i);
    assert(s.skip(m) =~= seq!['}'] + rest);
    assert(s[m] == '}') by {
        assert(s.skip(m)[0] == s[m]);
    }
    assert(GroupModel { job: spec_job_of(g.labels), labels: g.labels, targets: g.targets } =~= g);
    assert(m + 1 == i + json_group(g).len());
}

/// Parsing the elements of the group array undoes rendering them.
#[verifier::rlimit(100)]
proof fn lemma_parse_groups_entries_inv(
    s: Seq<char>,
    i: int,
    acc: Seq<GroupModel>,
    gs: Seq<GroupModel>,
    k: int,
    rest: Seq<char>,
    fuel: nat,
)
    requires
        0 <= i <= s.len(),
        0 <= k < gs.len(),
        s.skip(i) == json_group(gs[k]) + json_groups_rest(gs, k + 1) + seq![']'] + rest,
        fuel >= s.len() - i + 1,
        forall|j: int| k <= j < gs.len() ==> spec_job_of(#[trigger] gs[j].labels) == gs[j].job,
    ensures
        spec_parse_groups_entries(s, i, acc, fuel) == Option::Some(
            (acc + gs.skip(k), i + json_group(gs[k]).len() + json_groups_rest(gs, k + 1).len()
                + 1),
        ),
    decreases gs.len() - k,
{
    let g = gs[k];
    assert(s.skip(i).len() == s.len() - i);
    let rest1 = json_groups_rest(gs, k + 1) + seq![']'] + rest;
    assert(s.skip(i) =~= json_group(g) + rest1);
    lemma_parse_group_inv(s, i, g, rest1, fuel);
    let j = i + json_group(g).len();
    lemma_skip_skip(s, i, j - i);
    assert(s.skip(j) =~= rest1);
    if k + 1 < gs.len() {
        assert(json_groups_rest(gs, k + 1) == seq![','] + json_group(gs[k + 1])
            + json_groups_rest(gs, k + 2));
        assert(s[j] == ',') by {
            assert(s.skip(j)[0] == s[j]);
            assert(rest1[0] == ',');
        }
        lemma_skip_skip(s, i, j + 1 - i);
        assert(s.skip(j + 1) =~= json_group(gs[k + 1]) + json_groups_rest(gs, k + 2) + seq![']']
            + rest);
        lemma_parse_groups_entries_inv(s, j + 1, acc.push(g), gs, k + 1, rest, (fuel - 1) as nat);
        assert(acc.push(g) + gs.skip(k + 1) =~= acc + gs.skip(k));
    } else {
        assert(json_groups_rest(gs, k + 1).len() == 0);
        assert(s[j] == ']') by {
            assert(s.skip(j)[0] == s[j]);
            assert(rest1[0] == ']');
        }
        assert(acc.push(g) =~= acc + gs.skip(k));
    }
}

/// Round trip: parsing the rendered compact document of a group list
/// yields exactly that group list, provided each group's job agrees with
/// its `"job"` label (as every group built by mirroring does).
#[verifier::rlimit(100)]
pub proof fn lemma_parse_render_groups(gs: Seq<GroupModel>)
    requires
        forall|j: int| 0 <= j < gs.len() ==> spec_job_of(#[trigger] gs[j].labels) == gs[j].job,
    ensures
        spec_parse_groups(json_groups(gs)) == Option::Some(gs),
{
    let s = json_groups(gs);
    if gs.len() == 0 {
        assert(s.len() == 2 && s[0] == '[' && s[1] == ']');
        assert(gs =~= Seq::<GroupModel>::empty());
    } else {
        assert(s == seq!['['] + json_group(gs[0]) + json_groups_rest(gs, 1) + seq![']']);
        assert(json_group(gs[0]).len() >= 26) by {
            assert(json_labels_obj(gs[0].labels).len() >= 2);
            assert(json_targets_arr(gs[0].targets).len() >= 2);
        }
        assert(s.len() > 2);
        assert(s[0] == '[');
        lemma_skip_skip(s, 0, 1);
        assert(s.skip(0) =~= s);
        assert(s.skip(1) =~= json_group(gs[0]) + json_groups_rest(gs, 1) + seq![']']
            + Seq::<char>::empty());
        lemma_parse_groups_entries_inv(
            s,
            1,
            Seq::<GroupModel>::empty(),
            gs,
            0,
            Seq::<char>::empty(),
            s.len() as nat,
        );
        assert(Seq::<GroupModel>::empty() + gs.skip(0) =~= gs);
    }
}

} // verus!
