//! Writing a tape as JSON text.
use vstd::prelude::*;
use crate::tape::{Node, NodeModel, Nodes, nodes_view};
use crate::text::{chars_of, i64_text, int_text, push_char, push_chars};

verus! {

/// The hexadecimal digit of `n`, lower case.
pub open spec fn hex_digit(n: nat) -> char {
    if n < 10 {
        (('0' as u32) + n) as char
    } else {
        (('a' as u32) + n - 10) as char
    }
}

/// A character as a JSON string writes it: quote, backslash, line feed,
/// carriage return, tab, backspace and form feed by their short escapes,
/// other control characters as `\u00XX`, the rest as they are.
pub open spec fn json_escape_char(c: char) -> Seq<char> {
    if c == '"' {
        seq!['\\', '"']
    } else if c == '\\' {
        seq!['\\', '\\']
    } else if c == '\n' {
        seq!['\\', 'n']
    } else if c == '\r' {
        seq!['\\', 'r']
    } else if c == '\t' {
        seq!['\\', 't']
    } else if c == '\x08' {
        seq!['\\', 'b']
    } else if c == '\x0C' {
        seq!['\\', 'f']
    } else if (c as u32) < 0x20 {
        seq!['\\', 'u', '0', '0', hex_digit((c as u32) as nat / 16), hex_digit((c as u32) as nat % 16)]
    } else {
        seq![c]
    }
}

/// A string with each character escaped for JSON.
pub open spec fn json_escaped(s: Seq<char>) -> Seq<char>
    decreases s.len(),
{
    if s.len() == 0 {
        Seq::empty()
    } else {
        json_escaped(s.drop_last()) + json_escape_char(s.last())
    }
}

fn hex_digit_of(n: u32) -> (c: char)
    requires
        n < 16,
    ensures
        c == hex_digit(n as nat),
{
    if n == 0 {
        '0'
    } else if n == 1 {
        '1'
    } else if n == 2 {
        '2'
    } else if n == 3 {
        '3'
    } else if n == 4 {
        '4'
    } else if n == 5 {
        '5'
    } else if n == 6 {
        '6'
    } else if n == 7 {
        '7'
    } else if n == 8 {
        '8'
    } else if n == 9 {
        '9'
    } else if n == 10 {
        'a'
    } else if n == 11 {
        'b'
    } else if n == 12 {
        'c'
    } else if n == 13 {
        'd'
    } else if n == 14 {
        'e'
    } else {
        'f'
    }
}

/// Appends `s` escaped for a JSON string.
pub fn json_escape(s: &str, buf: &mut String)
    ensures
        final(buf)@ == old(buf)@ + json_escaped(s@),
{
    let cs = chars_of(s);
    let mut i: usize = 0;
    while i < cs.len()
        invariant
            i <= cs@.len(),
            cs@ == s@,
            buf@ == old(buf)@ + json_escaped(cs@.take(i as int)),
        decreases cs.len() - i,
    {
        let c = cs[i];
        if c == '"' {
            push_chars(buf, &['\\', '"']);
        } else if c == '\\' {
            push_chars(buf, &['\\', '\\']);
        } else if c == '\n' {
            push_chars(buf, &['\\', 'n']);
        } else if c == '\r' {
            push_chars(buf, &['\\', 'r']);
        } else if c == '\t' {
            push_chars(buf, &['\\', 't']);
        } else if c == '\x08' {
            push_chars(buf, &['\\', 'b']);
        } else if c == '\x0C' {
            push_chars(buf, &['\\', 'f']);
        } else if (c as u32) < 0x20 {
            let v = c as u32;
            let hi = hex_digit_of(v / 16);
            let lo = hex_digit_of(v % 16);
            push_chars(buf, &['\\', 'u', '0', '0', hi, lo]);
        } else {
            push_char(buf, c);
        }
        proof {
            assert(cs@.take(i + 1).drop_last() =~= cs@.take(i as int));
            assert(cs@.take(i + 1).last() == c);
            assert(buf@ =~= old(buf)@ + json_escaped(cs@.take(i + 1)));
        }
        i = i + 1;
    }
    assert(cs@.take(cs@.len() as int) =~= cs@);
}

// ---------------------------------------------------------------------------
// Tapes as JSON
// ---------------------------------------------------------------------------
/// What is left of the tape from `pos` on, as a measure.
pub open spec fn left(nodes: Nodes, pos: int) -> int {
    if pos < nodes.len() {
        nodes.len() - pos
    } else {
        0
    }
}

/// The JSON text of the value whose nodes start at `pos`, and how many nodes
/// it takes; past the end of the tape, `null` and none.
pub open spec fn json_node(nodes: Nodes, pos: int) -> (Seq<char>, nat)
    decreases left(nodes, pos), 0int,
{
    if pos < 0 || pos >= nodes.len() {
        (seq!['n', 'u', 'l', 'l'], 0)
    } else {
        match nodes[pos] {
            NodeModel::Null => (seq!['n', 'u', 'l', 'l'], 1),
            NodeModel::Bool(b) => (
                if b {
                    seq!['t', 'r', 'u', 'e']
                } else {
                    seq!['f', 'a', 'l', 's', 'e']
                },
                1,
            ),
            NodeModel::Integer(n) => (int_text(n as int), 1),
            NodeModel::Float(t) => (t, 1),
            NodeModel::Str(s) => (seq!['"'] + json_escaped(s) + seq!['"'], 1),
            NodeModel::Array(count) => {
                let (items, used) = json_items(nodes, pos + 1, 0, count);
                (seq!['['] + items + seq![']'], 1 + used)
            },
            NodeModel::Object(count) => {
                let (members, used) = json_members(nodes, pos + 1, 0, count);
                (seq!['{'] + members + seq!['}'], 1 + used)
            },
            NodeModel::Key(_) => (seq!['n', 'u', 'l', 'l'], 1),
        }
    }
}

/// The items `k..count` of an array, separated by commas.
pub open spec fn json_items(nodes: Nodes, pos: int, k: nat, count: nat) -> (Seq<char>, nat)
    decreases left(nodes, pos), count - k + 1,
{
    if k >= count {
        (Seq::empty(), 0)
    } else {
        let (v, u) = json_node(nodes, pos);
        let (rest, u2) = json_items(nodes, pos + u, k + 1, count);
        (
            (if k > 0 {
                seq![',']
            } else {
                Seq::empty()
            }) + v + rest,
            u + u2,
        )
    }
}

/// The members `k..count` of an object, separated by commas; the tape ending
/// where a key is due ends them, after the comma.
pub open spec fn json_members(nodes: Nodes, pos: int, k: nat, count: nat) -> (Seq<char>, nat)
    decreases left(nodes, pos), count - k + 1,
{
    if k >= count {
        (Seq::empty(), 0)
    } else {
        let sep = if k > 0 {
            seq![',']
        } else {
            Seq::empty()
        };
        if pos < 0 || pos >= nodes.len() {
            (sep, 0)
        } else {
            let key = match nodes[pos] {
                NodeModel::Key(kk) => kk,
                _ => Seq::empty(),
            };
            let (v, u) = json_node(nodes, pos + 1);
            let (rest, u2) = json_members(nodes, pos + 1 + u, k + 1, count);
            (
                sep + seq!['"'] + json_escaped(key) + seq!['"', ':'] + v + rest,
                1 + u + u2,
            )
        }
    }
}

/// Appends the JSON text of the value whose nodes start at `*pos`, and moves
/// `*pos` past them.
pub fn tape_to_json_string(nodes: &[Node], pos: &mut usize, buf: &mut String)
    requires
        *old(pos) <= nodes@.len(),
    ensures
        final(buf)@ == old(buf)@ + json_node(nodes_view(nodes@), *old(pos) as int).0,
        *final(pos) == *old(pos) + json_node(nodes_view(nodes@), *old(pos) as int).1,
        *final(pos) <= nodes@.len(),
    decreases left(nodes_view(nodes@), *old(pos) as int), 0int,
{
    let ghost nv = nodes_view(nodes@);
    let ghost p0 = *pos as int;
    proof {
        crate::tape::lemma_nodes_view_len(nodes@);
    }
    if *pos >= nodes.len() {
        push_chars(buf, &['n', 'u', 'l', 'l']);
        return;
    }
    proof {
        assert(nv[p0] == nodes@[p0]@);
    }
    match &nodes[*pos] {
        Node::Null => {
            *pos = *pos + 1;
            push_chars(buf, &['n', 'u', 'l', 'l']);
        },
        Node::Bool(b) => {
            *pos = *pos + 1;
            if *b {
                push_chars(buf, &['t', 'r', 'u', 'e']);
            } else {
                push_chars(buf, &['f', 'a', 'l', 's', 'e']);
            }
        },
        Node::Integer(i) => {
            *pos = *pos + 1;
            let t = i64_text(*i);
            buf.append(t.as_str());
        },
        Node::Float(f) => {
            *pos = *pos + 1;
            buf.append(f.as_str());
        },
        Node::String(s) => {
            *pos = *pos + 1;
            push_char(buf, '"');
            json_escape(s.as_str(), buf);
            push_char(buf, '"');
        },
        Node::Array(count) => {
            let count = *count;
            *pos = *pos + 1;
            push_char(buf, '[');
            let ghost start = *pos as int;
            let ghost open = buf@;
            let mut i: usize = 0;
            while i < count
                invariant
                    i <= count,
                    nv == nodes_view(nodes@),
                    nv.len() == nodes@.len(),
                    p0 < nv.len(),
                    start == p0 + 1,
                    p0 == *old(pos) as int,
                    start <= *pos <= nodes@.len(),
                    json_items(nv, start, 0, count as nat) == ({
                        let (rest, u) = json_items(nv, *pos as int, i as nat, count as nat);
                        (buf@.subrange(open.len() as int, buf@.len() as int) + rest, ((*pos - start)
                            + u) as nat)
                    }),
                    open.len() <= buf@.len(),
                    buf@.subrange(0, open.len() as int) == open,
                    open == old(buf)@.push('['),
                decreases count - i,
            {
                let ghost before = buf@;
                let ghost pb = *pos as int;
                if i > 0 {
                    push_char(buf, ',');
                }
                tape_to_json_string(nodes, pos, buf);
                proof {
                    let (v, u) = json_node(nv, pb);
                    let sep = if i > 0 {
                        seq![',']
                    } else {
                        Seq::<char>::empty()
                    };
                    assert(buf@ =~= before + sep + v);
                    assert(buf@.subrange(open.len() as int, buf@.len() as int) =~= before.subrange(
                        open.len() as int,
                        before.len() as int,
                    ) + sep + v);
                    assert(buf@.subrange(0, open.len() as int) =~= open);
                }
                i = i + 1;
            }
            let ghost body = buf@.subrange(open.len() as int, buf@.len() as int);
            proof {
                assert(buf@ =~= open + body);
            }
            push_char(buf, ']');
            proof {
                assert(json_items(nv, *pos as int, count as nat, count as nat) == (
                    Seq::<char>::empty(),
                    0nat,
                ));
                assert(body + Seq::<char>::empty() =~= body);
                assert(buf@ =~= old(buf)@ + (seq!['['] + body + seq![']']));
            }
        },
        Node::Object(count) => {
            let count = *count;
            *pos = *pos + 1;
            push_char(buf, '{');
            let ghost start = *pos as int;
            let ghost open = buf@;
            let mut i: usize = 0;
            while i < count
                invariant
                    i <= count,
                    nv == nodes_view(nodes@),
                    nv.len() == nodes@.len(),
                    p0 < nv.len(),
                    start == p0 + 1,
                    p0 == *old(pos) as int,
                    start <= *pos <= nodes@.len(),
                    nv[p0] == NodeModel::Object(count as nat),
                    json_members(nv, start, 0, count as nat) == ({
                        let (rest, u) = json_members(nv, *pos as int, i as nat, count as nat);
                        (buf@.subrange(open.len() as int, buf@.len() as int) + rest, ((*pos - start)
                            + u) as nat)
                    }),
                    open.len() <= buf@.len(),
                    buf@.subrange(0, open.len() as int) == open,
                    open == old(buf)@.push('{'),
                decreases count - i,
            {
                let ghost before = buf@;
                let ghost pb = *pos as int;
                if i > 0 {
                    push_char(buf, ',');
                }
                let sep_ghost = i > 0;
                if *pos >= nodes.len() {
                    let ghost body = buf@.subrange(open.len() as int, buf@.len() as int);
                    proof {
                        assert(buf@ =~= open + body);
                    }
                    push_char(buf, '}');
                    proof {
                        let sep = if sep_ghost {
                            seq![',']
                        } else {
                            Seq::<char>::empty()
                        };
                        assert(body =~= before.subrange(open.len() as int, before.len() as int) + sep);
                        assert(buf@ =~= old(buf)@ + (seq!['{'] + body + seq!['}']));
                    }
                    return;
                }
                proof {
                    assert(nv[pb] == nodes@[pb]@);
                }
                push_char(buf, '"');
                match &nodes[*pos] {
                    Node::Key(k) => {
                        json_escape(k.as_str(), buf);
                    },
                    _ => {},
                }
                *pos = *pos + 1;
                push_chars(buf, &['"', ':']);
                let ghost mid = buf@;
                tape_to_json_string(nodes, pos, buf);
                proof {
                    let key = match nv[pb] {
                        NodeModel::Key(kk) => kk,
                        _ => Seq::empty(),
                    };
                    if !(nv[pb] is Key) {
                        assert(json_escaped(Seq::<char>::empty()) =~= Seq::<char>::empty());
                    }
                    let (v, u) = json_node(nv, pb + 1);
                    let sep = if i > 0 {
                        seq![',']
                    } else {
                        Seq::<char>::empty()
                    };
                    assert(buf@ =~= before + sep + seq!['"'] + json_escaped(key) + seq!['"', ':']
                        + v);
                    assert(buf@.subrange(open.len() as int, buf@.len() as int) =~= before.subrange(
                        open.len() as int,
                        before.len() as int,
                    ) + (sep + seq!['"'] + json_escaped(key) + seq!['"', ':'] + v));
                    assert(buf@.subrange(0, open.len() as int) =~= open);
                }
                i = i + 1;
            }
            let ghost body = buf@.subrange(open.len() as int, buf@.len() as int);
            proof {
                assert(buf@ =~= open + body);
            }
            push_char(buf, '}');
            proof {
                assert(body + Seq::<char>::empty() =~= body);
                assert(buf@ =~= old(buf)@ + (seq!['{'] + body + seq!['}']));
            }
        },
        Node::Key(_) => {
            *pos = *pos + 1;
            push_chars(buf, &['n', 'u', 'l', 'l']);
        },
    }
}

} // verus!
