//! A tape read back into a tree, in the order its nodes come: arrays with
//! their items, objects with their entries (a key may come twice).  This is
//! the shape that script and PHP values are built from.
use vstd::prelude::*;
use crate::json::left;
use crate::syntax::{parse_u64, parse_u64_exec};
use crate::tape::{Node, NodeModel, Nodes, nodes_view};
use crate::text::chars_of;

verus! {

/// The model of a tree read from a tape.
pub enum TreeModel {
    Null,
    Bool(bool),
    Integer(i64),
    Float(Seq<char>),
    Str(Seq<char>),
    Array(Seq<TreeModel>),
    Object(Seq<(Seq<char>, TreeModel)>),
}

/// The tree of the value whose nodes start at `pos`, and how many nodes it
/// takes; past the end of the tape, null and none.
pub open spec fn tree_of(nodes: Nodes, pos: int) -> (TreeModel, nat)
    decreases left(nodes, pos), 0int,
{
    if pos < 0 || pos >= nodes.len() {
        (TreeModel::Null, 0)
    } else {
        match nodes[pos] {
            NodeModel::Null => (TreeModel::Null, 1),
            NodeModel::Bool(b) => (TreeModel::Bool(b), 1),
            NodeModel::Integer(n) => (TreeModel::Integer(n), 1),
            NodeModel::Float(t) => (TreeModel::Float(t), 1),
            NodeModel::Str(s) => (TreeModel::Str(s), 1),
            NodeModel::Array(count) => {
                let (items, used) = tree_items(nodes, pos + 1, 0, count);
                (TreeModel::Array(items), 1 + used)
            },
            NodeModel::Object(count) => {
                let (members, used) = tree_members(nodes, pos + 1, 0, count);
                (TreeModel::Object(members), 1 + used)
            },
            NodeModel::Key(_) => (TreeModel::Null, 1),
        }
    }
}

/// The items `k..count` of an array.
pub open spec fn tree_items(nodes: Nodes, pos: int, k: nat, count: nat) -> (Seq<TreeModel>, nat)
    decreases left(nodes, pos), count - k + 1,
{
    if k >= count {
        (Seq::empty(), 0)
    } else {
        let (v, u) = tree_of(nodes, pos);
        let (rest, u2) = tree_items(nodes, pos + u, k + 1, count);
        (seq![v] + rest, u + u2)
    }
}

/// The entries `k..count` of an object: each a key (empty where the node is
/// no key) and the value after it; the tape ending where a key is due ends
/// them.
pub open spec fn tree_members(nodes: Nodes, pos: int, k: nat, count: nat) -> (
    Seq<(Seq<char>, TreeModel)>,
    nat,
)
    decreases left(nodes, pos), count - k + 1,
{
    if k >= count || pos < 0 || pos >= nodes.len() {
        (Seq::empty(), 0)
    } else {
        let key = match nodes[pos] {
            NodeModel::Key(kk) => kk,
            _ => Seq::empty(),
        };
        let (v, u) = tree_of(nodes, pos + 1);
        let (rest, u2) = tree_members(nodes, pos + 1 + u, k + 1, count);
        (seq![(key, v)] + rest, 1 + u + u2)
    }
}

/// A tree read from a tape.
#[derive(Debug, PartialEq)]
pub enum TreeNode {
    Null,
    Bool(bool),
    Integer(i64),
    /// A floating-point number, as its text.
    Float(String),
    String(String),
    Array(Vec<TreeNode>),
    Object(Vec<(String, TreeNode)>),
}

pub open spec fn tree_view(t: TreeNode) -> TreeModel
    decreases t,
{
    match t {
        TreeNode::Null => TreeModel::Null,
        TreeNode::Bool(b) => TreeModel::Bool(b),
        TreeNode::Integer(n) => TreeModel::Integer(n),
        TreeNode::Float(s) => TreeModel::Float(s@),
        TreeNode::String(s) => TreeModel::Str(s@),
        TreeNode::Array(a) => TreeModel::Array(trees_view(a@)),
        TreeNode::Object(m) => TreeModel::Object(members_view(m@)),
    }
}

pub open spec fn trees_view(s: Seq<TreeNode>) -> Seq<TreeModel>
    decreases s,
{
    if s.len() == 0 {
        Seq::empty()
    } else {
        seq![tree_view(s[0])] + trees_view(s.drop_first())
    }
}

pub open spec fn members_view(s: Seq<(String, TreeNode)>) -> Seq<(Seq<char>, TreeModel)>
    decreases s,
{
    if s.len() == 0 {
        Seq::empty()
    } else {
        seq![(s[0].0@, tree_view(s[0].1))] + members_view(s.drop_first())
    }
}

impl View for TreeNode {
    type V = TreeModel;

    open spec fn view(&self) -> TreeModel {
        tree_view(*self)
    }
}

/// Viewing trees one by one.
pub proof fn lemma_trees_view(s: Seq<TreeNode>)
    ensures
        trees_view(s).len() == s.len(),
        forall|i: int| 0 <= i < s.len() ==> #[trigger] trees_view(s)[i] == tree_view(s[i]),
    decreases s.len(),
{
    if s.len() > 0 {
        lemma_trees_view(s.drop_first());
        assert forall|i: int| 0 <= i < s.len() implies #[trigger] trees_view(s)[i] == tree_view(
            s[i],
        ) by {
            if i > 0 {
                assert(s.drop_first()[i - 1] == s[i]);
            }
        }
    }
}

/// Viewing entries one by one.
pub proof fn lemma_members_view(s: Seq<(String, TreeNode)>)
    ensures
        members_view(s).len() == s.len(),
        forall|i: int|
            0 <= i < s.len() ==> #[trigger] members_view(s)[i] == (s[i].0@, tree_view(s[i].1)),
    decreases s.len(),
{
    if s.len() > 0 {
        lemma_members_view(s.drop_first());
        assert forall|i: int| 0 <= i < s.len() implies #[trigger] members_view(s)[i] == (
            s[i].0@,
            tree_view(s[i].1),
        ) by {
            if i > 0 {
                assert(s.drop_first()[i - 1] == s[i]);
            }
        }
    }
}

/// Reads the value whose nodes start at `*pos` into a tree, and moves `*pos`
/// past them.
pub fn tape_tree(nodes: &[Node], pos: &mut usize) -> (t: TreeNode)
    requires
        *old(pos) <= nodes@.len(),
    ensures
        t@ == tree_of(nodes_view(nodes@), *old(pos) as int).0,
        *final(pos) == *old(pos) + tree_of(nodes_view(nodes@), *old(pos) as int).1,
        *final(pos) <= nodes@.len(),
    decreases left(nodes_view(nodes@), *old(pos) as int), 0int,
{
    let ghost nv = nodes_view(nodes@);
    let ghost p0 = *pos as int;
    proof {
        crate::tape::lemma_nodes_view_len(nodes@);
    }
    if *pos >= nodes.len() {
        return TreeNode::Null;
    }
    proof {
        assert(nv[p0] == nodes@[p0]@);
    }
    match &nodes[*pos] {
        Node::Null => {
            *pos = *pos + 1;
            TreeNode::Null
        },
        Node::Bool(b) => {
            *pos = *pos + 1;
            TreeNode::Bool(*b)
        },
        Node::Integer(i) => {
            *pos = *pos + 1;
            TreeNode::Integer(*i)
        },
        Node::Float(f) => {
            *pos = *pos + 1;
            TreeNode::Float(f.clone())
        },
        Node::String(s) => {
            *pos = *pos + 1;
            TreeNode::String(s.clone())
        },
        Node::Array(count) => {
            let count = *count;
            *pos = *pos + 1;
            let ghost start = *pos as int;
            let mut items: Vec<TreeNode> = Vec::new();
            let mut i: usize = 0;
            proof {
                lemma_trees_view(items@);
            }
            while i < count
                invariant
                    i <= count,
                    nv == nodes_view(nodes@),
                    nv.len() == nodes@.len(),
                    p0 < nv.len(),
                    start == p0 + 1,
                    p0 == *old(pos) as int,
                    start <= *pos <= nodes@.len(),
                    trees_view(items@).len() == items@.len(),
                    tree_items(nv, start, 0, count as nat) == ({
                        let (rest, u) = tree_items(nv, *pos as int, i as nat, count as nat);
                        (trees_view(items@) + rest, ((*pos - start) + u) as nat)
                    }),
                decreases count - i,
            {
                let ghost before = items@;
                let ghost pb = *pos as int;
                let t = tape_tree(nodes, pos);
                items.push(t);
                proof {
                    lemma_trees_view(before);
                    lemma_trees_view(items@);
                    assert(trees_view(items@) =~= trees_view(before).push(t@));
                    let (v, u) = tree_of(nv, pb);
                    assert(trees_view(items@) + tree_items(nv, *pos as int, (i + 1) as nat, count as nat).0
                        =~= trees_view(before) + (seq![v] + tree_items(nv, *pos as int, (i + 1) as nat, count as nat).0));
                }
                i = i + 1;
            }
            proof {
                assert(trees_view(items@) + Seq::<TreeModel>::empty() =~= trees_view(items@));
            }
            TreeNode::Array(items)
        },
        Node::Object(count) => {
            let count = *count;
            *pos = *pos + 1;
            let ghost start = *pos as int;
            let mut members: Vec<(String, TreeNode)> = Vec::new();
            let mut i: usize = 0;
            proof {
                lemma_members_view(members@);
            }
            while i < count && *pos < nodes.len()
                invariant
                    i <= count,
                    nv == nodes_view(nodes@),
                    nv.len() == nodes@.len(),
                    p0 < nv.len(),
                    start == p0 + 1,
                    p0 == *old(pos) as int,
                    start <= *pos <= nodes@.len(),
                    members_view(members@).len() == members@.len(),
                    tree_members(nv, start, 0, count as nat) == ({
                        let (rest, u) = tree_members(nv, *pos as int, i as nat, count as nat);
                        (members_view(members@) + rest, ((*pos - start) + u) as nat)
                    }),
                decreases count - i,
            {
                let ghost before = members@;
                let ghost pb = *pos as int;
                proof {
                    assert(nv[pb] == nodes@[pb]@);
                }
                let key = match &nodes[*pos] {
                    Node::Key(k) => k.clone(),
                    _ => String::new(),
                };
                *pos = *pos + 1;
                let v = tape_tree(nodes, pos);
                members.push((key, v));
                proof {
                    lemma_members_view(before);
                    lemma_members_view(members@);
                    let key_model = match nv[pb] {
                        NodeModel::Key(kk) => kk,
                        _ => Seq::empty(),
                    };
                    assert(key@ == key_model);
                    assert(members_view(members@) =~= members_view(before).push((key_model, v@)));
                    let (tv, u) = tree_of(nv, pb + 1);
                    assert(members_view(members@) + tree_members(nv, *pos as int, (i + 1) as nat, count as nat).0
                        =~= members_view(before) + (seq![(key_model, tv)] + tree_members(nv, *pos as int, (i + 1) as nat, count as nat).0));
                }
                i = i + 1;
            }
            proof {
                assert(members_view(members@) + Seq::<(Seq<char>, TreeModel)>::empty() =~= members_view(members@));
            }
            TreeNode::Object(members)
        },
        Node::Key(_) => {
            *pos = *pos + 1;
            TreeNode::Null
        },
    }
}

/// The array index that a key stands for in a PHP array: the key read as a
/// `u64`, where it reads as one.
pub fn php_index_key(key: &str) -> (r: Option<u64>)
    ensures
        match r {
            Some(n) => parse_u64(key@) == Some(n as nat),
            None => parse_u64(key@) is None,
        },
{
    let cs = chars_of(key);
    parse_u64_exec(cs.as_slice())
}

} // verus!
