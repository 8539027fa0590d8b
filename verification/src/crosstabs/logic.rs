//! The crosstab spec-logic tree and its in-order text.

use vstd::prelude::*;

use crate::text::{push_str, string_from, chars_of, extend_chars};

verus! {

/// Errors of crosstab processing.
#[derive(Debug, Clone)]
pub enum CrossTabsError {
    ParseError(String),
    ExcelError(String),
    QuestionNotFound(String),
}

pub open spec fn error_text(e: CrossTabsError) -> Seq<char> {
    match e {
        CrossTabsError::ParseError(m) => "Parse error: "@ + m@,
        CrossTabsError::ExcelError(m) => "Excel error: "@ + m@,
        CrossTabsError::QuestionNotFound(m) => "Question not found: "@ + m@,
    }
}

impl CrossTabsError {
    /// The error's message.
    pub fn to_string(&self) -> (r: String)
        ensures
            r@ == error_text(*self),
    {
        let mut out: Vec<char> = Vec::new();
        let msg = match self {
            CrossTabsError::ParseError(m) => {
                push_str(&mut out, "Parse error: ");
                m
            },
            CrossTabsError::ExcelError(m) => {
                push_str(&mut out, "Excel error: ");
                m
            },
            CrossTabsError::QuestionNotFound(m) => {
                push_str(&mut out, "Question not found: ");
                m
            },
        };
        push_str(&mut out, msg.as_str());
        string_from(out.as_slice())
    }
}

/// A node of a spec-logic tree: an operator (`&`, `|`, `--`, `:`, `(`,
/// `NOT`) with its operands, or a leaf value.
#[derive(Debug)]
pub struct CrossTabsLogic {
    pub value: Option<String>,
    pub left: Option<Box<CrossTabsLogic>>,
    pub right: Option<Box<CrossTabsLogic>>,
}

/// The mathematical model of a [`CrossTabsLogic`] node.
pub struct LogicTree {
    pub value: Option<Seq<char>>,
    pub left: Option<Box<LogicTree>>,
    pub right: Option<Box<LogicTree>>,
}

impl CrossTabsLogic {
    pub open spec fn tree(&self) -> LogicTree
        decreases self,
    {
        LogicTree {
            value: match self.value {
                Some(v) => Some(v@),
                None => None,
            },
            left: match self.left {
                Some(l) => Some(Box::new(l.tree())),
                None => None,
            },
            right: match self.right {
                Some(r) => Some(Box::new(r.tree())),
                None => None,
            },
        }
    }

    /// A copy of the tree.
    pub fn copy(&self) -> (r: CrossTabsLogic)
        ensures
            r.tree() == self.tree(),
        decreases self,
    {
        CrossTabsLogic {
            value: match &self.value {
                Some(v) => Some(v.clone()),
                None => None,
            },
            left: match &self.left {
                Some(l) => Some(Box::new(l.copy())),
                None => None,
            },
            right: match &self.right {
                Some(r) => Some(Box::new(r.copy())),
                None => None,
            },
        }
    }
}

impl Clone for CrossTabsLogic {
    fn clone(&self) -> Self {
        self.copy()
    }
}

pub open spec fn is_leaf(t: LogicTree) -> bool {
    t.left is None && t.right is None
}

/// The expression written out in order.
pub open spec fn inorder(t: LogicTree) -> Seq<char>
    decreases t,
{
    match t.left {
        Some(l) => {
            let ls = inorder(*l);
            match t.value {
                Some(v) => if v == "("@ {
                    "("@ + ls + ")"@
                } else {
                    match t.right {
                        Some(r) => {
                            let sep = if v == "--"@ {
                                " MINUS "@
                            } else if v == "&"@ {
                                " & "@
                            } else if v == "|"@ {
                                " OR "@
                            } else if v == ":"@ {
                                ":"@
                            } else {
                                " "@ + v + " "@
                            };
                            ls + sep + inorder(*r)
                        },
                        None => ls,
                    }
                },
                None => ls,
            }
        },
        None => match t.value {
            Some(v) => if v == "NOT"@ {
                match t.right {
                    Some(r) => {
                        let rs = inorder(*r);
                        if r.value == Some("("@) || (rs.len() > 0 && rs[0] == '(') {
                            "NOT"@ + rs
                        } else {
                            "NOT("@ + rs + ")"@
                        }
                    },
                    None => v,
                }
            } else {
                v
            },
            None => Seq::empty(),
        },
    }
}

/// Whether `s` holds exactly the characters of `lit`.
fn eq_lit(s: &String, lit: &str) -> (r: bool)
    ensures
        r == (s@ == lit@),
{
    let a = chars_of(s.as_str());
    let b = chars_of(lit);
    if a.len() != b.len() {
        return false;
    }
    let mut i: usize = 0;
    while i < a.len()
        invariant
            i <= a.len() == b.len(),
            a@ == s@,
            b@ == lit@,
            forall|j: int| 0 <= j < i ==> a@[j] == b@[j],
        decreases a.len() - i,
    {
        if a[i] != b[i] {
            assert(a@[i as int] != b@[i as int]);
            return false;
        }
        i = i + 1;
    }
    assert(a@ =~= b@);
    true
}

impl CrossTabsLogic {
    fn push_inorder(&self, out: &mut Vec<char>)
        ensures
            final(out)@ == old(out)@ + inorder(self.tree()),
        decreases self,
    {
        proof {
            reveal_strlit("(");
            reveal_strlit(")");
            reveal_strlit("--");
            reveal_strlit("&");
            reveal_strlit("|");
            reveal_strlit(":");
            reveal_strlit("NOT");
            reveal_strlit(" MINUS ");
            reveal_strlit(" & ");
            reveal_strlit(" OR ");
            reveal_strlit(" ");
            reveal_strlit("NOT(");
        }
        match &self.left {
            Some(l) => match &self.value {
                Some(v) => {
                    if eq_lit(v, "(") {
                        out.push('(');
                        l.push_inorder(out);
                        out.push(')');
                    } else {
                        match &self.right {
                            Some(r) => {
                                l.push_inorder(out);
                                if eq_lit(v, "--") {
                                    push_str(out, " MINUS ");
                                } else if eq_lit(v, "&") {
                                    push_str(out, " & ");
                                } else if eq_lit(v, "|") {
                                    push_str(out, " OR ");
                                } else if eq_lit(v, ":") {
                                    push_str(out, ":");
                                } else {
                                    out.push(' ');
                                    push_str(out, v.as_str());
                                    out.push(' ');
                                }
                                r.push_inorder(out);
                            },
                            None => {
                                l.push_inorder(out);
                            },
                        }
                    }
                    assert(out@ =~= old(out)@ + inorder(self.tree()));
                },
                None => {
                    l.push_inorder(out);
                },
            },
            None => match &self.value {
                Some(v) => {
                    if eq_lit(v, "NOT") {
                        match &self.right {
                            Some(r) => {
                                let mut rs: Vec<char> = Vec::new();
                                r.push_inorder(&mut rs);
                                assert(rs@ =~= inorder(r.tree()));
                                let paren_value = match &r.value {
                                    Some(rv) => eq_lit(rv, "("),
                                    None => false,
                                };
                                if paren_value || (rs.len() > 0 && rs[0] == '(') {
                                    push_str(out, "NOT");
                                    extend_chars(out, rs.as_slice());
                                } else {
                                    push_str(out, "NOT(");
                                    extend_chars(out, rs.as_slice());
                                    out.push(')');
                                }
                            },
                            None => {
                                push_str(out, v.as_str());
                            },
                        }
                    } else {
                        push_str(out, v.as_str());
                    }
                    assert(out@ =~= old(out)@ + inorder(self.tree()));
                },
                None => {
                    assert(out@ =~= old(out)@ + inorder(self.tree()));
                },
            },
        }
    }

    /// Whether the node has no children.
    pub fn is_leaf(&self) -> (r: bool)
        ensures
            r == is_leaf(self.tree()),
    {
        self.left.is_none() && self.right.is_none()
    }

    /// The expression written out in order.
    pub fn to_inorder(&self) -> (r: String)
        ensures
            r@ == inorder(self.tree()),
    {
        let mut out: Vec<char> = Vec::new();
        self.push_inorder(&mut out);
        assert(out@ =~= inorder(self.tree()));
        string_from(out.as_slice())
    }
}

} // verus!
