//! The syntax tree: a closed set of node variants, built once by the parser
//! and walked read-only by the evaluator.

use vstd::prelude::*;
use crate::base_literal::BaseLiteral;
use crate::token::TokenType;

verus! {

/// The mathematical model of a syntax-tree node. A numeral is its radix and
/// digit sequence; names and text are character sequences.
pub ghost enum NodeModel {
    BaseLiteral { base: int, digits: Seq<char> },
    Var { name: Seq<char> },
    Assign { name: Seq<char>, value: Box<NodeModel> },
    BinOp { op: TokenType, left: Box<NodeModel>, right: Box<NodeModel> },
    Call { name: Seq<char>, args: Seq<NodeModel> },
    Return { expr: Box<NodeModel> },
    Text { text: Seq<char> },
}

/// One node of the syntax tree. Nodes own their children exclusively: the
/// tree has no sharing and no cycles.
#[derive(Debug)]
pub enum Node {
    BaseLiteral(BaseLiteral),
    Var(String),
    Assign { name: String, value: Box<Node> },
    BinOp { op: TokenType, left: Box<Node>, right: Box<Node> },
    Call { name: String, args: Vec<Node> },
    Return(Box<Node>),
    Text(String),
}

/// The model of a node: its shape with every string read as its characters.
pub open spec fn node_model(n: Node) -> NodeModel
    decreases n, 0int,
{
    match n {
        Node::BaseLiteral(b) => NodeModel::BaseLiteral { base: b.base as int, digits: b.raw@ },
        Node::Var(name) => NodeModel::Var { name: name@ },
        Node::Assign { name, value } => NodeModel::Assign {
            name: name@,
            value: Box::new(node_model(*value)),
        },
        Node::BinOp { op, left, right } => NodeModel::BinOp {
            op,
            left: Box::new(node_model(*left)),
            right: Box::new(node_model(*right)),
        },
        Node::Call { name, args } => {
            proof {
                assert(decreases_to!(n, 0int => args, 1int));
                assert(decreases_to!(args, 1int => args@, 1int));
            }
            NodeModel::Call { name: name@, args: node_models(args@) }
        },
        Node::Return(e) => NodeModel::Return { expr: Box::new(node_model(*e)) },
        Node::Text(t) => NodeModel::Text { text: t@ },
    }
}

impl View for Node {
    type V = NodeModel;

    open spec fn view(&self) -> NodeModel {
        node_model(*self)
    }
}

/// The models of a node sequence, in order.
pub open spec fn node_models(ns: Seq<Node>) -> Seq<NodeModel>
    decreases ns, 1int,
{
    if ns.len() == 0 {
        Seq::empty()
    } else {
        seq![node_model(ns[0])] + node_models(ns.subrange(1, ns.len() as int))
    }
}

/// The model of a node sequence is its nodes' models, pointwise.
pub proof fn lemma_node_models(ns: Seq<Node>)
    ensures
        node_models(ns).len() == ns.len(),
        forall|i: int| 0 <= i < ns.len() ==> node_models(ns)[i] == node_model(#[trigger] ns[i]),
    decreases ns.len(),
{
    if ns.len() > 0 {
        let rest = ns.subrange(1, ns.len() as int);
        lemma_node_models(rest);
        assert forall|i: int| 0 <= i < ns.len() implies node_models(ns)[i] == node_model(
            #[trigger] ns[i],
        ) by {
            if i > 0 {
                assert(rest[i - 1] == ns[i]);
                assert(node_models(ns)[i] == node_models(rest)[i - 1]);
            }
        }
    }
}

/// Node models distribute over push.
pub proof fn lemma_node_models_push(ns: Seq<Node>, n: Node)
    ensures
        node_models(ns.push(n)) == node_models(ns).push(node_model(n)),
{
    lemma_node_models(ns.push(n));
    lemma_node_models(ns);
    assert forall|i: int| 0 <= i < ns.len() + 1 implies node_models(ns.push(n))[i] == node_models(
        ns,
    ).push(node_model(n))[i] by {
        if i < ns.len() {
            assert(ns.push(n)[i] == ns[i]);
        } else {
            assert(ns.push(n)[i] == n);
        }
    }
    assert(node_models(ns.push(n)) =~= node_models(ns).push(node_model(n)));
}


/// Every numeral in the tree carries a radix in 2..=64, as the parser
/// builds them. Arithmetic is specified only over such trees.
pub open spec fn node_wf(n: NodeModel) -> bool
    decreases n, 0int,
{
    match n {
        NodeModel::BaseLiteral { base, digits } => 2 <= base <= 64,
        NodeModel::Var { name } => true,
        NodeModel::Assign { name, value } => node_wf(*value),
        NodeModel::BinOp { op, left, right } => node_wf(*left) && node_wf(*right),
        NodeModel::Call { name, args } => {
            proof {
                assert(decreases_to!(n, 0int => args, 1int));
            }
            nodes_wf(args)
        },
        NodeModel::Return { expr } => node_wf(*expr),
        NodeModel::Text { text } => true,
    }
}

/// Well-formedness of every node of a sequence.
pub open spec fn nodes_wf(s: Seq<NodeModel>) -> bool
    decreases s, 1int,
{
    s.len() == 0 || (node_wf(s[0]) && nodes_wf(s.subrange(1, s.len() as int)))
}

/// Pushing a node keeps a sequence's well-formedness exactly.
pub proof fn lemma_nodes_wf_push(s: Seq<NodeModel>, n: NodeModel)
    ensures
        nodes_wf(s.push(n)) == (nodes_wf(s) && node_wf(n)),
    decreases s.len(),
{
    let sp = s.push(n);
    assert(sp.len() == s.len() + 1);
    if s.len() == 0 {
        assert(sp[0] == n);
        assert(sp.subrange(1, sp.len() as int) =~= Seq::<NodeModel>::empty());
        assert(nodes_wf(sp) == (node_wf(sp[0]) && nodes_wf(sp.subrange(1, sp.len() as int))));
        assert(nodes_wf(Seq::<NodeModel>::empty()));
    } else {
        assert(sp[0] == s[0]);
        assert(sp.subrange(1, sp.len() as int) =~= s.subrange(1, s.len() as int).push(n));
        lemma_nodes_wf_push(s.subrange(1, s.len() as int), n);
        assert(nodes_wf(sp) == (node_wf(sp[0]) && nodes_wf(sp.subrange(1, sp.len() as int))));
        assert(nodes_wf(s) == (node_wf(s[0]) && nodes_wf(s.subrange(1, s.len() as int))));
    }
}


/// Sequence well-formedness gives each node's well-formedness.
pub proof fn lemma_nodes_wf_index(s: Seq<NodeModel>)
    requires
        nodes_wf(s),
    ensures
        forall|i: int| 0 <= i < s.len() ==> node_wf(#[trigger] s[i]),
    decreases s.len(),
{
    if s.len() > 0 {
        let rest = s.subrange(1, s.len() as int);
        lemma_nodes_wf_index(rest);
        assert forall|i: int| 0 <= i < s.len() implies node_wf(#[trigger] s[i]) by {
            if i > 0 {
                assert(rest[i - 1] == s[i]);
            }
        }
    }
}

} // verus!
