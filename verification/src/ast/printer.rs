//! A printer of expressions in prefix form, with every grouping explicit.

use vstd::prelude::*;
use vstd::string::*;
use super::{Expr, LiteralValue};

verus! {

/// The texts of `parts` from index `from` on, each after a space.
pub open spec fn spaced(parts: Seq<Seq<char>>, from: int) -> Seq<char>
    decreases parts.len() - from,
{
    if 0 <= from < parts.len() {
        " "@ + parts[from] + spaced(parts, from + 1)
    } else {
        Seq::empty()
    }
}

/// `name` and `parts` in parentheses, separated by spaces.
pub open spec fn parenthesized(name: Seq<char>, parts: Seq<Seq<char>>) -> Seq<char> {
    "("@ + name + spaced(parts, 0) + ")"@
}

/// The text of a literal.
pub open spec fn literal_text(value: LiteralValue) -> Seq<char> {
    match value {
        LiteralValue::String(text) => text@,
        LiteralValue::Number(text) => text@,
        LiteralValue::Bool(b) => if b {
            "true"@
        } else {
            "false"@
        },
        LiteralValue::Nil => "nil"@,
    }
}

/// The texts of the expressions of `list` from index `from` on.
pub open spec fn printed_all(list: Seq<Expr>, from: int) -> Seq<Seq<char>>
    decreases list, list.len() - from,
{
    if 0 <= from < list.len() {
        seq![printed(list[from])] + printed_all(list, from + 1)
    } else {
        Seq::empty()
    }
}

/// The text of an expression: a literal as it is written, a name as it is,
/// and every other expression in parentheses, headed by its operator.
pub open spec fn printed(expr: Expr) -> Seq<char>
    decreases expr, 0nat,
{
    match expr {
        Expr::Literal(e) => literal_text(e.value),
        Expr::Grouping(e) => parenthesized("group"@, seq![printed(*e.value)]),
        Expr::Logical(e) => parenthesized(
            e.operator.lexeme@,
            seq![printed(*e.left), printed(*e.right)],
        ),
        Expr::PropertySet(e) => parenthesized(
            "="@,
            seq![printed(*e.object), e.name.lexeme@, printed(*e.value)],
        ),
        Expr::Super(e) => parenthesized("super"@, seq![e.method.lexeme@]),
        Expr::This(_) => "this"@,
        Expr::Unary(e) => parenthesized(e.operator.lexeme@, seq![printed(*e.value)]),
        Expr::Binary(e) => parenthesized(
            e.operator.lexeme@,
            seq![printed(*e.left), printed(*e.right)],
        ),
        Expr::Call(e) => parenthesized(
            "call"@,
            seq![printed(*e.callee)] + printed_all(e.arguments@, 0),
        ),
        Expr::Get(e) => parenthesized("."@, seq![printed(*e.object), e.name.lexeme@]),
        Expr::Assign(e) => parenthesized("="@, seq![e.name.lexeme@, printed(*e.value)]),
        Expr::Variable(e) => e.name.lexeme@,
    }
}

/// The views of a list of strings.
pub open spec fn texts(parts: Seq<String>) -> Seq<Seq<char>> {
    Seq::new(parts.len(), |i: int| parts[i]@)
}

/// Prints expressions in prefix form.
pub struct AstPrinter;

impl AstPrinter {
    /// `name` and `parts` in parentheses, separated by spaces.
    pub fn parenthesize(&mut self, name: &str, parts: &Vec<String>) -> (text: String)
        ensures
            text@ == parenthesized(name@, texts(parts@)),
    {
        let ghost all = texts(parts@);
        let mut text = String::from_str("(");
        text.append(name);
        let mut i: usize = parts.len();
        let mut tail = String::new();
        while i > 0
            invariant
                i <= parts@.len(),
                all == texts(parts@),
                tail@ == spaced(all, i as int),
            decreases i,
        {
            i -= 1;
            let mut longer = String::from_str(" ");
            longer.append(parts[i].as_str());
            longer.append(tail.as_str());
            tail = longer;
        }
        text.append(tail.as_str());
        text.append(")");
        text
    }

    /// The texts of the expressions of a list.
    fn print_all(&mut self, list: &[Expr]) -> (parts: Vec<String>)
        ensures
            texts(parts@) == printed_all(list@, 0),
        decreases list@, list@.len(),
    {
        let mut parts: Vec<String> = Vec::new();
        assert(texts(parts@) =~= Seq::<Seq<char>>::empty());
        let mut i: usize = 0;
        while i < list.len()
            invariant
                i <= list@.len(),
                texts(parts@) + printed_all(list@, i as int) == printed_all(list@, 0),
            decreases list@.len() - i,
        {
            let ghost before = texts(parts@);
            let part = self.print(&list[i]);
            parts.push(part);
            assert(texts(parts@) =~= before.push(printed(list@[i as int])));
            assert(before.push(printed(list@[i as int])) + printed_all(list@, i + 1) =~= before
                + printed_all(list@, i as int));
            i += 1;
        }
        assert(texts(parts@) + Seq::<Seq<char>>::empty() =~= texts(parts@));
        parts
    }

    /// The text of an expression.
    pub fn print(&mut self, expr: &Expr) -> (text: String)
        ensures
            text@ == printed(*expr),
        decreases *expr, 0nat,
    {
        match expr {
            Expr::Literal(node) => match &node.value {
                LiteralValue::String(value) => value.clone(),
                LiteralValue::Number(value) => value.clone(),
                LiteralValue::Bool(value) => String::from_str(
                    if *value {
                        "true"
                    } else {
                        "false"
                    },
                ),
                LiteralValue::Nil => String::from_str("nil"),
            },
            Expr::Grouping(node) => {
                let parts = vec![self.print(&node.value)];
                assert(texts(parts@) =~= seq![printed(*node.value)]);
                self.parenthesize("group", &parts)
            },
            Expr::Logical(node) => {
                let parts = vec![self.print(&node.left), self.print(&node.right)];
                assert(texts(parts@) =~= seq![printed(*node.left), printed(*node.right)]);
                self.parenthesize(node.operator.lexeme, &parts)
            },
            Expr::PropertySet(node) => {
                let parts = vec![
                    self.print(&node.object),
                    String::from_str(node.name.lexeme),
                    self.print(&node.value),
                ];
                assert(texts(parts@) =~= seq![
                    printed(*node.object),
                    node.name.lexeme@,
                    printed(*node.value),
                ]);
                self.parenthesize("=", &parts)
            },
            Expr::Super(node) => {
                let parts = vec![String::from_str(node.method.lexeme)];
                assert(texts(parts@) =~= seq![node.method.lexeme@]);
                self.parenthesize("super", &parts)
            },
            Expr::This(_) => String::from_str("this"),
            Expr::Unary(node) => {
                let parts = vec![self.print(&node.value)];
                assert(texts(parts@) =~= seq![printed(*node.value)]);
                self.parenthesize(node.operator.lexeme, &parts)
            },
            Expr::Binary(node) => {
                let parts = vec![self.print(&node.left), self.print(&node.right)];
                assert(texts(parts@) =~= seq![printed(*node.left), printed(*node.right)]);
                self.parenthesize(node.operator.lexeme, &parts)
            },
            Expr::Call(node) => {
                let mut parts = vec![self.print(&node.callee)];
                let ghost first = texts(parts@);
                assert(first =~= seq![printed(*node.callee)]);
                let mut arguments = self.print_all(node.arguments.as_slice());
                let ghost rest = texts(arguments@);
                parts.append(&mut arguments);
                assert(texts(parts@) =~= first + rest);
                self.parenthesize("call", &parts)
            },
            Expr::Get(node) => {
                let parts = vec![self.print(&node.object), String::from_str(node.name.lexeme)];
                assert(texts(parts@) =~= seq![printed(*node.object), node.name.lexeme@]);
                self.parenthesize(".", &parts)
            },
            Expr::Assign(node) => {
                let parts = vec![String::from_str(node.name.lexeme), self.print(&node.value)];
                assert(texts(parts@) =~= seq![node.name.lexeme@, printed(*node.value)]);
                self.parenthesize("=", &parts)
            },
            Expr::Variable(node) => String::from_str(node.name.lexeme),
        }
    }
}

} // verus!
