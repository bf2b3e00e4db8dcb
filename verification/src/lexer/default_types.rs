//! The operator and delimiter traits, and the default operator set.

use vstd::prelude::*;
use vstd::string::StringExecFns;
use crate::lexer::token::clones_exactly;

verus! {

/// Types that implement `Operator` are valid operators for the lexer and the parser.
///
/// The lexer recognises each value of the type by the text that `symbol` gives it.
pub trait Operator: Copy {
    /// Every value of the operator type, in declaration order.
    fn variants() -> Vec<Self>;

    /// The text of this operator, as it appears in the input (e.g. `"+"`).
    fn symbol(&self) -> String;

    /// Get the binding power for this operator type; by default none on either side.
    fn binding_power(&self) -> (r: (Option<u16>, Option<u16>))
        default_ensures
            r == (None::<u16>, None::<u16>),
    {
        (None, None)
    }
}

/// Types that implement `Delimiter` are valid delimited types for the lexer: text
/// between a left and a right delimiter, such as `"strings"`.
pub trait Delimiter: Clone {
    /// Every value of the delimiter type, in declaration order; the lexer clones the
    /// matching one for each delimited token it produces.
    fn variants() -> Vec<Self>;

    /// Get the left and right delimiters for this type, if it has any; by default none.
    fn delimiters(&self) -> (r: Option<(String, String)>)
        default_ensures
            r is None,
    {
        None
    }

    /// The value that `set` makes of this one with the text `text`; by default the value
    /// itself. A type whose `set` changes the value overrides `filled` to say what it
    /// makes (such as the value that holds `text`).
    open spec fn filled(self, text: String) -> Self {
        self
    }

    /// Set the value of this delimited type to the text found between its delimiters:
    /// the value becomes `filled` with that text.
    fn set(&mut self, input: String)
        ensures
            *final(self) == old(self).filled(input),
    ;
}

/// Default operator type.
#[derive(Clone, Copy, Debug, PartialEq, Eq, Hash)]
pub enum DefaultOperators {
    /// `+`
    Add,
    /// `-`
    Sub,
    /// `*`
    Mul,
    /// `/`
    Div,
    /// `%`
    Mod,
    /// `**`
    Pow,
    /// `==`
    Eq,
    /// `!=`
    Neq,
    /// `>`
    Gt,
    /// `<`
    Lt,
    /// `>=`
    Gte,
    /// `<=`
    Lte,
    /// `&&`
    And,
    /// `||`
    Or,
    /// `!`
    Not,
    /// `&`
    BwAnd,
    /// `|`
    BwOr,
    /// `^`
    BwXor,
    /// `<<`
    LShift,
    /// `>>`
    RShift,
}

impl DefaultOperators {
    /// The text of each default operator.
    pub open spec fn symbol_text(self) -> Seq<char> {
        match self {
            DefaultOperators::Add => "+"@,
            DefaultOperators::Sub => "-"@,
            DefaultOperators::Mul => "*"@,
            DefaultOperators::Div => "/"@,
            DefaultOperators::Mod => "%"@,
            DefaultOperators::Pow => "**"@,
            DefaultOperators::Eq => "=="@,
            DefaultOperators::Neq => "!="@,
            DefaultOperators::Gt => ">"@,
            DefaultOperators::Lt => "<"@,
            DefaultOperators::Gte => ">="@,
            DefaultOperators::Lte => "<="@,
            DefaultOperators::And => "&&"@,
            DefaultOperators::Or => "||"@,
            DefaultOperators::Not => "!"@,
            DefaultOperators::BwAnd => "&"@,
            DefaultOperators::BwOr => "|"@,
            DefaultOperators::BwXor => "^"@,
            DefaultOperators::LShift => "<<"@,
            DefaultOperators::RShift => ">>"@,
        }
    }

    /// All default operators, in declaration order.
    pub open spec fn all() -> Seq<DefaultOperators> {
        seq![
            DefaultOperators::Add,
            DefaultOperators::Sub,
            DefaultOperators::Mul,
            DefaultOperators::Div,
            DefaultOperators::Mod,
            DefaultOperators::Pow,
            DefaultOperators::Eq,
            DefaultOperators::Neq,
            DefaultOperators::Gt,
            DefaultOperators::Lt,
            DefaultOperators::Gte,
            DefaultOperators::Lte,
            DefaultOperators::And,
            DefaultOperators::Or,
            DefaultOperators::Not,
            DefaultOperators::BwAnd,
            DefaultOperators::BwOr,
            DefaultOperators::BwXor,
            DefaultOperators::LShift,
            DefaultOperators::RShift,
        ]
    }
}

impl Operator for DefaultOperators {
    fn variants() -> (r: Vec<Self>)
        ensures
            r@ == DefaultOperators::all(),
    {
        vec![
            DefaultOperators::Add,
            DefaultOperators::Sub,
            DefaultOperators::Mul,
            DefaultOperators::Div,
            DefaultOperators::Mod,
            DefaultOperators::Pow,
            DefaultOperators::Eq,
            DefaultOperators::Neq,
            DefaultOperators::Gt,
            DefaultOperators::Lt,
            DefaultOperators::Gte,
            DefaultOperators::Lte,
            DefaultOperators::And,
            DefaultOperators::Or,
            DefaultOperators::Not,
            DefaultOperators::BwAnd,
            DefaultOperators::BwOr,
            DefaultOperators::BwXor,
            DefaultOperators::LShift,
            DefaultOperators::RShift,
        ]
    }

    fn symbol(&self) -> (r: String)
        ensures
            r@ == self.symbol_text(),
    {
        let s = match self {
            DefaultOperators::Add => "+",
            DefaultOperators::Sub => "-",
            DefaultOperators::Mul => "*",
            DefaultOperators::Div => "/",
            DefaultOperators::Mod => "%",
            DefaultOperators::Pow => "**",
            DefaultOperators::Eq => "==",
            DefaultOperators::Neq => "!=",
            DefaultOperators::Gt => ">",
            DefaultOperators::Lt => "<",
            DefaultOperators::Gte => ">=",
            DefaultOperators::Lte => "<=",
            DefaultOperators::And => "&&",
            DefaultOperators::Or => "||",
            DefaultOperators::Not => "!",
            DefaultOperators::BwAnd => "&",
            DefaultOperators::BwOr => "|",
            DefaultOperators::BwXor => "^",
            DefaultOperators::LShift => "<<",
            DefaultOperators::RShift => ">>",
        };
        String::from_str(s)
    }

    fn binding_power(&self) -> (r: (Option<u16>, Option<u16>))
        ensures
            r == (None::<u16>, None::<u16>),
    {
        (None, None)
    }
}

/// Null delimited type: a lexer with it recognises no delimited text.
#[derive(Clone, Copy, Debug, PartialEq, Eq)]
pub struct NullDelimiter;

/// Cloning a null delimiter gives the same value.
pub proof fn lemma_null_delimiter_clones_exactly()
    ensures
        clones_exactly::<NullDelimiter>(),
{
}

impl Delimiter for NullDelimiter {
    fn variants() -> (r: Vec<Self>)
        ensures
            r@.len() == 0,
    {
        Vec::new()
    }

    fn set(&mut self, input: String) {
    }
}

} // verus!
