//! The abstract syntax tree produced by the parser, and its mathematical view.
use vstd::prelude::*;

verus! {

/// A built-in character class escape.
#[derive(Debug, Clone, Copy, PartialEq, Eq, Structural)]
pub enum BuiltinClass {
    Digit,
    NotDigit,
    Word,
    NotWord,
    Space,
    NotSpace,
}

/// A zero-width line anchor.
#[derive(Debug, Clone, Copy, PartialEq, Eq, Structural)]
pub enum AnchorKind {
    Start,
    End,
}

/// A range in a character class: single char, lo-hi inclusive range, or a
/// built-in class.
#[derive(Debug, Clone, Copy, PartialEq, Eq, Structural)]
pub enum ClassRange {
    Single(char),
    Range(char, char),
    Builtin(BuiltinClass),
}

/// A parsed regular expression.
#[derive(Debug)]
pub enum Node {
    Empty,
    Literal(char),
    Dot,
    Class { ranges: Vec<ClassRange>, negated: bool },
    Builtin(BuiltinClass),
    Anchor(AnchorKind),
    WordBoundary { negated: bool },
    BackRef(u32),
    Lookahead { sub: Box<Node>, negative: bool },
    Lookbehind { sub: Box<Node>, negative: bool },
    Capture { index: u32, name: Option<String>, sub: Box<Node> },
    Group(Box<Node>),
    Repeat { sub: Box<Node>, min: u32, max: Option<u32>, greedy: bool },
    Concat(Vec<Node>),
    Alternation(Vec<Node>),
}

/// The mathematical form of a [`Node`]: sequences in place of vectors and
/// strings.
pub ghost enum SNode {
    Empty,
    Literal(char),
    Dot,
    Class { ranges: Seq<ClassRange>, negated: bool },
    Builtin(BuiltinClass),
    Anchor(AnchorKind),
    WordBoundary { negated: bool },
    BackRef(u32),
    Lookahead { sub: Box<SNode>, negative: bool },
    Lookbehind { sub: Box<SNode>, negative: bool },
    Capture { index: u32, name: Option<Seq<char>>, sub: Box<SNode> },
    Group(Box<SNode>),
    Repeat { sub: Box<SNode>, min: u32, max: Option<u32>, greedy: bool },
    Concat(Seq<SNode>),
    Alternation(Seq<SNode>),
}

/// The view of an optional group name.
pub open spec fn name_view(n: Option<String>) -> Option<Seq<char>> {
    match n {
        Some(s) => Some(s@),
        None => None,
    }
}

/// The view of a node.
pub open spec fn node_view(n: Node) -> SNode
    decreases n,
{
    match n {
        Node::Empty => SNode::Empty,
        Node::Literal(c) => SNode::Literal(c),
        Node::Dot => SNode::Dot,
        Node::Class { ranges, negated } => SNode::Class { ranges: ranges@, negated },
        Node::Builtin(b) => SNode::Builtin(b),
        Node::Anchor(a) => SNode::Anchor(a),
        Node::WordBoundary { negated } => SNode::WordBoundary { negated },
        Node::BackRef(i) => SNode::BackRef(i),
        Node::Lookahead { sub, negative } => SNode::Lookahead {
            sub: Box::new(node_view(*sub)),
            negative,
        },
        Node::Lookbehind { sub, negative } => SNode::Lookbehind {
            sub: Box::new(node_view(*sub)),
            negative,
        },
        Node::Capture { index, name, sub } => SNode::Capture {
            index,
            name: name_view(name),
            sub: Box::new(node_view(*sub)),
        },
        Node::Group(sub) => SNode::Group(Box::new(node_view(*sub))),
        Node::Repeat { sub, min, max, greedy } => SNode::Repeat {
            sub: Box::new(node_view(*sub)),
            min,
            max,
            greedy,
        },
        Node::Concat(v) => SNode::Concat(nodes_view(v@)),
        Node::Alternation(v) => SNode::Alternation(nodes_view(v@)),
    }
}

/// The view of a sequence of nodes, element by element.
pub open spec fn nodes_view(s: Seq<Node>) -> Seq<SNode>
    decreases s,
{
    if s.len() == 0 {
        Seq::empty()
    } else {
        nodes_view(s.drop_last()).push(node_view(s.last()))
    }
}

impl View for Node {
    type V = SNode;

    open spec fn view(&self) -> SNode {
        node_view(*self)
    }
}

/// The view of a sequence has the same length and views each element.
pub proof fn lemma_nodes_view(s: Seq<Node>)
    ensures
        nodes_view(s).len() == s.len(),
        forall|i: int| 0 <= i < s.len() ==> #[trigger] nodes_view(s)[i] == node_view(s[i]),
    decreases s.len(),
{
    if s.len() > 0 {
        lemma_nodes_view(s.drop_last());
    }
}

} // verus!
verus! {

/// The view of a sequence grows by one element when a node is pushed.
pub proof fn lemma_nodes_view_push(s: Seq<Node>, n: Node)
    ensures
        nodes_view(s.push(n)) == nodes_view(s).push(node_view(n)),
        nodes_view(Seq::<Node>::empty()) == Seq::<SNode>::empty(),
{
    assert(s.push(n).drop_last() =~= s);
}

} // verus!
verus! {

/// The view of a literal node is the literal.
pub proof fn lemma_view_literal(c: char)
    ensures
        node_view(Node::Literal(c)) == SNode::Literal(c),
{
}

} // verus!
