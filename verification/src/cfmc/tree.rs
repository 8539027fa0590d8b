//! CFMC expression tree, its mathematical model and its canonical text.

use vstd::prelude::*;

use crate::text::{nat_str, push_str, string_from, u128_to_chars, usize_to_chars, extend_chars};

verus! {

/// Operators of CFMC logic.
#[derive(Debug, Clone, Copy, PartialEq, Eq, Structural)]
pub enum CfmcOperator {
    /// `=`, `$` or `#`
    Equal,
    /// `<>`
    NotEqual,
    /// `<`
    Less,
    /// `>`
    Greater,
    /// `<=`
    LessEqual,
    /// `>=`
    GreaterEqual,
    /// `AND`
    And,
    /// `OR`
    Or,
    /// `NOT`
    Not,
    /// `NUMITEMS`
    NumItems,
    /// `^^B`
    IsBlank,
    /// `^^NB`
    IsNotBlank,
    /// `+`: substring extraction or addition
    Plus,
    /// `*`
    Multiply,
    /// `/`
    Divide,
    /// `,`: value list
    Comma,
    /// `-`: range or subtraction
    Dash,
}

/// A node of a parsed CFMC expression.
#[derive(Debug)]
pub enum CfmcNode {
    QuestionLabel(String),
    Literal(String),
    Binary { operator: CfmcOperator, left: Box<CfmcNode>, right: Box<CfmcNode> },
    Unary { operator: CfmcOperator, operand: Box<CfmcNode> },
    FunctionCall { name: String, args: Vec<CfmcNode> },
    /// Raw column reference like `[10.2]`; `col` is 1-indexed.
    ColumnRef { col: usize, width: usize },
    /// Punch reference like `[LABEL^1,5]` or `[10.2^^1,5,20]`.
    PunchRef { location: Box<CfmcNode>, codes: Vec<u8>, multi_col: bool, negated: bool },
}

/// A parsed CFMC logic expression.
#[derive(Debug)]
pub struct CfmcLogic {
    pub root: CfmcNode,
}

/// The mathematical model of a [`CfmcNode`]: strings and vectors as sequences.
pub enum CfmcTree {
    QuestionLabel(Seq<char>),
    Literal(Seq<char>),
    Binary { operator: CfmcOperator, left: Box<CfmcTree>, right: Box<CfmcTree> },
    Unary { operator: CfmcOperator, operand: Box<CfmcTree> },
    FunctionCall { name: Seq<char>, args: Seq<CfmcTree> },
    ColumnRef { col: usize, width: usize },
    PunchRef { location: Box<CfmcTree>, codes: Seq<u8>, multi_col: bool, negated: bool },
}

impl CfmcNode {
    pub open spec fn tree(&self) -> CfmcTree
        decreases self, 0int,
    {
        match self {
            CfmcNode::QuestionLabel(l) => CfmcTree::QuestionLabel(l@),
            CfmcNode::Literal(v) => CfmcTree::Literal(v@),
            CfmcNode::Binary { operator, left, right } => CfmcTree::Binary {
                operator: *operator,
                left: Box::new(left.tree()),
                right: Box::new(right.tree()),
            },
            CfmcNode::Unary { operator, operand } => CfmcTree::Unary {
                operator: *operator,
                operand: Box::new(operand.tree()),
            },
            CfmcNode::FunctionCall { name, args } => CfmcTree::FunctionCall {
                name: name@,
                args: trees(args@, 0),
            },
            CfmcNode::ColumnRef { col, width } => CfmcTree::ColumnRef { col: *col, width: *width },
            CfmcNode::PunchRef { location, codes, multi_col, negated } => CfmcTree::PunchRef {
                location: Box::new(location.tree()),
                codes: codes@,
                multi_col: *multi_col,
                negated: *negated,
            },
        }
    }
}

/// Models of `s[i..]`.
pub open spec fn trees(s: Seq<CfmcNode>, i: int) -> Seq<CfmcTree>
    decreases s, s.len() - i,
{
    if 0 <= i < s.len() {
        seq![s[i].tree()] + trees(s, i + 1)
    } else {
        Seq::empty()
    }
}

impl CfmcNode {
    /// A copy of the node.
    pub fn copy(&self) -> (r: CfmcNode)
        ensures
            r.tree() == self.tree(),
        decreases self,
    {
        match self {
            CfmcNode::QuestionLabel(l) => CfmcNode::QuestionLabel(l.clone()),
            CfmcNode::Literal(v) => CfmcNode::Literal(v.clone()),
            CfmcNode::Binary { operator, left, right } => CfmcNode::Binary {
                operator: *operator,
                left: Box::new(left.copy()),
                right: Box::new(right.copy()),
            },
            CfmcNode::Unary { operator, operand } => CfmcNode::Unary {
                operator: *operator,
                operand: Box::new(operand.copy()),
            },
            CfmcNode::FunctionCall { name, args } => {
                let mut out: Vec<CfmcNode> = Vec::new();
                let mut i: usize = 0;
                while i < args.len()
                    invariant
                        i <= args.len(),
                        out.len() == i,
                        decreases_to!(self => args),
                        forall|j: int| 0 <= j < i ==> (#[trigger] out@[j]).tree() == args@[j].tree(),
                    decreases args.len() - i,
                {
                    assert(decreases_to!(args => args@));
                    assert(decreases_to!(args@ => args@[i as int]));
                    let c = args[i].copy();
                    out.push(c);
                    i = i + 1;
                }
                proof {
                    lemma_trees_eq(out@, args@, 0);
                }
                CfmcNode::FunctionCall { name: name.clone(), args: out }
            },
            CfmcNode::ColumnRef { col, width } => CfmcNode::ColumnRef { col: *col, width: *width },
            CfmcNode::PunchRef { location, codes, multi_col, negated } => {
                let mut cs: Vec<u8> = Vec::new();
                let mut i: usize = 0;
                while i < codes.len()
                    invariant
                        i <= codes.len(),
                        cs@ == codes@.take(i as int),
                    decreases codes.len() - i,
                {
                    cs.push(codes[i]);
                    i = i + 1;
                    assert(cs@ =~= codes@.take(i as int));
                }
                assert(codes@.take(codes.len() as int) =~= codes@);
                CfmcNode::PunchRef {
                    location: Box::new(location.copy()),
                    codes: cs,
                    multi_col: *multi_col,
                    negated: *negated,
                }
            },
        }
    }
}

/// Sequences of nodes with the same models have the same models.
pub proof fn lemma_trees_eq(a: Seq<CfmcNode>, b: Seq<CfmcNode>, i: int)
    requires
        a.len() == b.len(),
        forall|j: int| 0 <= j < a.len() ==> (#[trigger] a[j]).tree() == b[j].tree(),
    ensures
        trees(a, i) == trees(b, i),
    decreases a.len() - i,
{
    if 0 <= i < a.len() {
        lemma_trees_eq(a, b, i + 1);
    }
}

impl Clone for CfmcNode {
    fn clone(&self) -> Self {
        self.copy()
    }
}

impl Clone for CfmcLogic {
    fn clone(&self) -> Self {
        CfmcLogic { root: self.root.copy() }
    }
}

impl View for CfmcLogic {
    type V = CfmcTree;

    open spec fn view(&self) -> CfmcTree {
        self.root.tree()
    }
}

// ---------------------------------------------------------------------------
// Precedence and canonical text
// ---------------------------------------------------------------------------

pub open spec fn precedence(op: CfmcOperator) -> nat {
    match op {
        CfmcOperator::Or => 10,
        CfmcOperator::And => 20,
        CfmcOperator::Equal | CfmcOperator::NotEqual | CfmcOperator::Less | CfmcOperator::Greater
        | CfmcOperator::LessEqual | CfmcOperator::GreaterEqual => 30,
        CfmcOperator::Plus => 40,
        CfmcOperator::Multiply | CfmcOperator::Divide => 45,
        CfmcOperator::Comma => 50,
        CfmcOperator::Dash => 60,
        CfmcOperator::Not | CfmcOperator::NumItems | CfmcOperator::IsBlank | CfmcOperator::IsNotBlank => 70,
    }
}

/// Binding strength of an operator: the main operator of an expression is
/// the one with the lowest.
pub fn operator_precedence(op: CfmcOperator) -> (r: u8)
    ensures
        r == precedence(op),
{
    match op {
        CfmcOperator::Or => 10,
        CfmcOperator::And => 20,
        CfmcOperator::Equal | CfmcOperator::NotEqual | CfmcOperator::Less | CfmcOperator::Greater
        | CfmcOperator::LessEqual | CfmcOperator::GreaterEqual => 30,
        CfmcOperator::Plus => 40,
        CfmcOperator::Multiply | CfmcOperator::Divide => 45,
        CfmcOperator::Comma => 50,
        CfmcOperator::Dash => 60,
        CfmcOperator::Not | CfmcOperator::NumItems | CfmcOperator::IsBlank | CfmcOperator::IsNotBlank => 70,
    }
}

pub open spec fn op_len(op: CfmcOperator) -> nat {
    match op {
        CfmcOperator::NumItems => 8,
        CfmcOperator::IsNotBlank => 4,
        CfmcOperator::And | CfmcOperator::Not | CfmcOperator::IsBlank => 3,
        CfmcOperator::Or | CfmcOperator::LessEqual | CfmcOperator::GreaterEqual | CfmcOperator::NotEqual => 2,
        _ => 1,
    }
}

/// Number of characters of an operator's token.
pub fn operator_length(op: CfmcOperator) -> (r: usize)
    ensures
        r == op_len(op),
{
    match op {
        CfmcOperator::NumItems => 8,
        CfmcOperator::IsNotBlank => 4,
        CfmcOperator::And | CfmcOperator::Not | CfmcOperator::IsBlank => 3,
        CfmcOperator::Or | CfmcOperator::LessEqual | CfmcOperator::GreaterEqual | CfmcOperator::NotEqual => 2,
        _ => 1,
    }
}

/// `format!("{:?}", op)`: the variant's name.
pub open spec fn op_debug(op: CfmcOperator) -> Seq<char> {
    match op {
        CfmcOperator::Equal => "Equal"@,
        CfmcOperator::NotEqual => "NotEqual"@,
        CfmcOperator::Less => "Less"@,
        CfmcOperator::Greater => "Greater"@,
        CfmcOperator::LessEqual => "LessEqual"@,
        CfmcOperator::GreaterEqual => "GreaterEqual"@,
        CfmcOperator::And => "And"@,
        CfmcOperator::Or => "Or"@,
        CfmcOperator::Not => "Not"@,
        CfmcOperator::NumItems => "NumItems"@,
        CfmcOperator::IsBlank => "IsBlank"@,
        CfmcOperator::IsNotBlank => "IsNotBlank"@,
        CfmcOperator::Plus => "Plus"@,
        CfmcOperator::Multiply => "Multiply"@,
        CfmcOperator::Divide => "Divide"@,
        CfmcOperator::Comma => "Comma"@,
        CfmcOperator::Dash => "Dash"@,
    }
}

pub fn push_op_debug(out: &mut Vec<char>, op: CfmcOperator)
    ensures
        final(out)@ == old(out)@ + op_debug(op),
{
    let s = match op {
        CfmcOperator::Equal => "Equal",
        CfmcOperator::NotEqual => "NotEqual",
        CfmcOperator::Less => "Less",
        CfmcOperator::Greater => "Greater",
        CfmcOperator::LessEqual => "LessEqual",
        CfmcOperator::GreaterEqual => "GreaterEqual",
        CfmcOperator::And => "And",
        CfmcOperator::Or => "Or",
        CfmcOperator::Not => "Not",
        CfmcOperator::NumItems => "NumItems",
        CfmcOperator::IsBlank => "IsBlank",
        CfmcOperator::IsNotBlank => "IsNotBlank",
        CfmcOperator::Plus => "Plus",
        CfmcOperator::Multiply => "Multiply",
        CfmcOperator::Divide => "Divide",
        CfmcOperator::Comma => "Comma",
        CfmcOperator::Dash => "Dash",
    };
    push_str(out, s);
}

/// Whether a node with operator `cur` under a parent operator `parent`
/// needs parentheses: it binds more loosely than its parent.
pub open spec fn needs_parens(cur: CfmcOperator, parent: Option<CfmcOperator>) -> bool {
    match parent {
        Some(p) => precedence(cur) < precedence(p),
        None => false,
    }
}

pub fn needs_parentheses_for_context(cur: CfmcOperator, parent: Option<CfmcOperator>) -> (r: bool)
    ensures
        r == needs_parens(cur, parent),
{
    match parent {
        Some(p) => operator_precedence(cur) < operator_precedence(p),
        None => false,
    }
}

/// Text between the operands of a binary node.
pub open spec fn binary_op_text(op: CfmcOperator) -> Seq<char> {
    match op {
        CfmcOperator::Equal => "="@,
        CfmcOperator::And => " AND "@,
        CfmcOperator::Or => " OR "@,
        CfmcOperator::Plus => "+"@,
        CfmcOperator::Multiply => "*"@,
        CfmcOperator::Divide => "/"@,
        CfmcOperator::Comma => ","@,
        CfmcOperator::Dash => "-"@,
        _ => " "@ + op_debug(op) + " "@,
    }
}

/// Whether a unary operator wraps its operand in parentheses.
pub open spec fn wraps_operand(t: CfmcTree) -> bool {
    match t {
        CfmcTree::Binary { operator, .. } => operator == CfmcOperator::And || operator == CfmcOperator::Or
            || operator == CfmcOperator::Plus || operator == CfmcOperator::Comma
            || operator == CfmcOperator::Dash || operator == CfmcOperator::Equal,
        _ => false,
    }
}

/// Text of a punch code: 10, 11 and 12 are written `0`, `X`, `Y`.
pub open spec fn punch_text(c: u8) -> Seq<char> {
    if c == 10 {
        "0"@
    } else if c == 11 {
        "X"@
    } else if c == 12 {
        "Y"@
    } else {
        nat_str(c as nat)
    }
}

/// Punch codes joined by `,`.
pub open spec fn codes_text(codes: Seq<u8>) -> Seq<char>
    decreases codes.len(),
{
    if codes.len() == 0 {
        Seq::empty()
    } else if codes.len() == 1 {
        punch_text(codes[0])
    } else {
        codes_text(codes.drop_last()) + ","@ + punch_text(codes.last())
    }
}

/// Canonical text of an expression under the parent operator `parent`.
pub open spec fn tree_text(t: CfmcTree, parent: Option<CfmcOperator>) -> Seq<char>
    decreases t, 0int,
{
    match t {
        CfmcTree::QuestionLabel(l) => l,
        CfmcTree::Literal(v) => v,
        CfmcTree::Binary { operator, left, right } => {
            let l = tree_text(*left, Some(operator));
            let r = tree_text(*right, Some(operator));
            let body = if operator == CfmcOperator::Equal {
                l + "("@ + r + ")"@
            } else if operator == CfmcOperator::NotEqual {
                l + "(<>"@ + r + ")"@
            } else {
                l + binary_op_text(operator) + r
            };
            if needs_parens(operator, parent) {
                "("@ + body + ")"@
            } else {
                body
            }
        },
        CfmcTree::Unary { operator, operand } => {
            let wrap = wraps_operand(*operand);
            let inner = if wrap {
                "("@ + tree_text(*operand, None) + ")"@
            } else {
                tree_text(*operand, parent)
            };
            let op = if operator == CfmcOperator::Not {
                "NOT"@
            } else if operator == CfmcOperator::NumItems {
                "NUMITEMS"@
            } else {
                op_debug(operator)
            };
            if wrap {
                op + inner
            } else {
                op + " "@ + inner
            }
        },
        CfmcTree::FunctionCall { name, args } => name + "("@ + args_text(args, 0) + ")"@,
        CfmcTree::ColumnRef { col, width } => "["@ + nat_str(col as nat) + "."@ + nat_str(width as nat) + "]"@,
        CfmcTree::PunchRef { location, codes, multi_col, negated } => "["@ + tree_text(*location, None)
            + (if multi_col { "^^"@ } else { "^"@ }) + (if negated { "N"@ } else { ""@ }) + codes_text(codes)
            + "]"@,
    }
}

/// Texts of `args[i..]`, joined by `,`.
pub open spec fn args_text(args: Seq<CfmcTree>, i: int) -> Seq<char>
    decreases args, args.len() - i,
{
    if 0 <= i < args.len() {
        if i == 0 {
            tree_text(args[i], None) + args_text(args, i + 1)
        } else {
            ","@ + tree_text(args[i], None) + args_text(args, i + 1)
        }
    } else {
        Seq::empty()
    }
}

pub proof fn lemma_trees_index(s: Seq<CfmcNode>, i: int)
    requires
        0 <= i <= s.len(),
    ensures
        trees(s, i).len() == s.len() - i,
        forall|j: int| 0 <= j < s.len() - i ==> #[trigger] trees(s, i)[j] == s[i + j].tree(),
    decreases s.len() - i,
{
    if i < s.len() {
        lemma_trees_index(s, i + 1);
        assert forall|j: int| 0 <= j < s.len() - i implies #[trigger] trees(s, i)[j] == s[i + j].tree() by {
            if j > 0 {
                assert(trees(s, i)[j] == trees(s, i + 1)[j - 1]);
            }
        }
    }
}

fn push_punch_text(out: &mut Vec<char>, c: u8)
    ensures
        final(out)@ == old(out)@ + punch_text(c),
{
    if c == 10 {
        out.push('0');
    } else if c == 11 {
        out.push('X');
    } else if c == 12 {
        out.push('Y');
    } else {
        let d = usize_to_chars(c as usize);
        extend_chars(out, d.as_slice());
    }
    proof {
        reveal_strlit("0");
        reveal_strlit("X");
        reveal_strlit("Y");
    }
    assert(out@ =~= old(out)@ + punch_text(c));
}

fn push_codes_text(out: &mut Vec<char>, codes: &Vec<u8>)
    ensures
        final(out)@ == old(out)@ + codes_text(codes@),
{
    let mut i: usize = 0;
    assert(codes@.take(0) =~= Seq::<u8>::empty());
    while i < codes.len()
        invariant
            i <= codes.len(),
            out@ == old(out)@ + codes_text(codes@.take(i as int)),
        decreases codes.len() - i,
    {
        assert(codes@.take(i + 1).drop_last() =~= codes@.take(i as int));
        assert(codes@.take(i + 1).last() == codes@[i as int]);
        if i > 0 {
            out.push(',');
            proof {
                reveal_strlit(",");
            }
        }
        push_punch_text(out, codes[i]);
        i = i + 1;
        assert(out@ =~= old(out)@ + codes_text(codes@.take(i as int)));
    }
    assert(codes@.take(codes.len() as int) =~= codes@);
}

fn push_binary_text(out: &mut Vec<char>, node: &CfmcNode, parent: Option<CfmcOperator>)
    requires
        node is Binary,
    ensures
        final(out)@ == old(out)@ + tree_text(node.tree(), parent),
    decreases node, 0int,
{
    match node {
        CfmcNode::Binary { operator, left, right } => {
            let op = *operator;
            let wrap = needs_parentheses_for_context(op, parent);
            if wrap {
                out.push('(');
            }
            let ghost before = out@;
            push_node_text(out, left, Some(op));
            if op == CfmcOperator::Equal {
                out.push('(');
                push_node_text(out, right, Some(op));
                out.push(')');
            } else if op == CfmcOperator::NotEqual {
                push_str(out, "(<>");
                push_node_text(out, right, Some(op));
                out.push(')');
            } else {
                match op {
                    CfmcOperator::Equal => push_str(out, "="),
                    CfmcOperator::And => push_str(out, " AND "),
                    CfmcOperator::Or => push_str(out, " OR "),
                    CfmcOperator::Plus => push_str(out, "+"),
                    CfmcOperator::Multiply => push_str(out, "*"),
                    CfmcOperator::Divide => push_str(out, "/"),
                    CfmcOperator::Comma => push_str(out, ","),
                    CfmcOperator::Dash => push_str(out, "-"),
                    _ => {
                        out.push(' ');
                        push_op_debug(out, op);
                        out.push(' ');
                        assert(out@.len() > 0);
                    },
                }
                push_node_text(out, right, Some(op));
            }
            if wrap {
                out.push(')');
            }
            proof {
                reveal_strlit("(");
                reveal_strlit(")");
                reveal_strlit("(<>");
                reveal_strlit(" ");
            }
            assert(out@ =~= old(out)@ + tree_text(node.tree(), parent));
        },
        _ => {},
    }
}

fn push_unary_text(out: &mut Vec<char>, node: &CfmcNode, parent: Option<CfmcOperator>)
    requires
        node is Unary,
    ensures
        final(out)@ == old(out)@ + tree_text(node.tree(), parent),
    decreases node, 0int,
{
    match node {
        CfmcNode::Unary { operator, operand } => {
            let op = *operator;
            let wrap = match &**operand {
                CfmcNode::Binary { operator: inner, .. } => *inner == CfmcOperator::And || *inner == CfmcOperator::Or
                    || *inner == CfmcOperator::Plus || *inner == CfmcOperator::Comma
                    || *inner == CfmcOperator::Dash || *inner == CfmcOperator::Equal,
                _ => false,
            };
            if op == CfmcOperator::Not {
                push_str(out, "NOT");
            } else if op == CfmcOperator::NumItems {
                push_str(out, "NUMITEMS");
            } else {
                push_op_debug(out, op);
            }
            if wrap {
                out.push('(');
                push_node_text(out, operand, None);
                out.push(')');
            } else {
                out.push(' ');
                push_node_text(out, operand, parent);
            }
            proof {
                reveal_strlit("(");
                reveal_strlit(")");
                reveal_strlit(" ");
            }
            assert(out@ =~= old(out)@ + tree_text(node.tree(), parent));
        },
        _ => {},
    }
}

fn push_call_text(out: &mut Vec<char>, node: &CfmcNode, parent: Option<CfmcOperator>)
    requires
        node is FunctionCall,
    ensures
        final(out)@ == old(out)@ + tree_text(node.tree(), parent),
    decreases node, 0int,
{
    match node {
        CfmcNode::FunctionCall { name, args } => {
            push_str(out, name.as_str());
            out.push('(');
            let ghost ts = trees(args@, 0);
            let ghost base = out@;
            proof {
                lemma_trees_index(args@, 0);
            }
            let mut i: usize = 0;
            assert(out@ + args_text(ts, 0) == base + args_text(ts, 0));
            while i < args.len()
                invariant
                    i <= args.len(),
                    ts == trees(args@, 0),
                    ts.len() == args.len(),
                    forall|j: int| 0 <= j < args.len() ==> #[trigger] ts[j] == args@[j].tree(),
                    out@ + args_text(ts, i as int) == base + args_text(ts, 0),
                    decreases_to!(node => args),
                decreases args.len() - i,
            {
                assert(decreases_to!(args => args@));
                assert(decreases_to!(args@ => args@[i as int]));
                let ghost o = out@;
                if i > 0 {
                    out.push(',');
                }
                push_node_text(out, &args[i], None);
                proof {
                    reveal_strlit(",");
                    assert(ts[i as int] == args@[i as int].tree());
                }
                assert(out@ + args_text(ts, i + 1) =~= o + args_text(ts, i as int));
                i = i + 1;
            }
            out.push(')');
            proof {
                reveal_strlit("(");
                reveal_strlit(")");
                assert(args_text(ts, args.len() as int) =~= Seq::<char>::empty());
            }
            assert(out@ =~= old(out)@ + tree_text(node.tree(), parent));
        },
        _ => {},
    }
}

fn push_punch_ref_text(out: &mut Vec<char>, node: &CfmcNode, parent: Option<CfmcOperator>)
    requires
        node is PunchRef,
    ensures
        final(out)@ == old(out)@ + tree_text(node.tree(), parent),
    decreases node, 0int,
{
    match node {
        CfmcNode::PunchRef { location, codes, multi_col, negated } => {
            out.push('[');
            push_node_text(out, location, None);
            if *multi_col {
                push_str(out, "^^");
            } else {
                push_str(out, "^");
            }
            if *negated {
                push_str(out, "N");
            } else {
                push_str(out, "");
            }
            push_codes_text(out, codes);
            out.push(']');
            proof {
                reveal_strlit("[");
                reveal_strlit("]");
            }
            assert(out@ =~= old(out)@ + tree_text(node.tree(), parent));
        },
        _ => {},
    }
}

/// Append the canonical text of `node` under the parent operator `parent`.
pub fn push_node_text(out: &mut Vec<char>, node: &CfmcNode, parent: Option<CfmcOperator>)
    ensures
        final(out)@ == old(out)@ + tree_text(node.tree(), parent),
    decreases node, 1int,
{
    match node {
        CfmcNode::QuestionLabel(l) => {
            push_str(out, l.as_str());
        },
        CfmcNode::Literal(v) => {
            push_str(out, v.as_str());
        },
        CfmcNode::Binary { .. } => push_binary_text(out, node, parent),
        CfmcNode::Unary { .. } => push_unary_text(out, node, parent),
        CfmcNode::FunctionCall { .. } => push_call_text(out, node, parent),
        CfmcNode::ColumnRef { col, width } => {
            out.push('[');
            let c = usize_to_chars(*col);
            extend_chars(out, c.as_slice());
            out.push('.');
            let w = usize_to_chars(*width);
            extend_chars(out, w.as_slice());
            out.push(']');
            proof {
                reveal_strlit("[");
                reveal_strlit("]");
                reveal_strlit(".");
            }
            assert(out@ =~= old(out)@ + tree_text(node.tree(), parent));
        },
        CfmcNode::PunchRef { .. } => push_punch_ref_text(out, node, parent),
    }
}

impl CfmcLogic {
    /// The canonical text of the expression.
    pub fn to_string(&self) -> (r: String)
        ensures
            r@ == tree_text(self@, None),
    {
        let mut out: Vec<char> = Vec::new();
        push_node_text(&mut out, &self.root, None);
        assert(out@ =~= tree_text(self@, None));
        string_from(out.as_slice())
    }
}

} // verus!
