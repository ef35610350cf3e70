//! Operators and grouping markers: classification, precedence,
//! associativity and display symbols.
//!
//! The operator model is a pure classification. The pending-operator stack
//! and the output queue that apply it belong to the caller.

use vstd::prelude::*;

verus! {

/// A binary operator, written between its operands.
#[derive(Debug, Clone, Copy, PartialEq, Eq, Structural)]
pub enum In {
    Pow,
    Mul,
    Div,
    Add,
    Sub,
    PlusMinus,
}

/// A unary operator written before its operand.
#[derive(Debug, Clone, Copy, PartialEq, Eq, Structural)]
pub enum Pre {
    Neg,
    Pos,
    PosNeg,
}

/// A unary operator written after its operand.
#[derive(Debug, Clone, Copy, PartialEq, Eq, Structural)]
pub enum Post {
    Fact,
    Percent,
}

/// An operator: infix, prefix or postfix.
#[derive(Debug, Clone, Copy, PartialEq, Eq, Structural)]
pub enum Op {
    In(In),
    Pre(Pre),
    Post(Post),
}

impl Op {
    /// How tightly the operator binds; higher binds tighter.
    ///
    /// Exponentiation and all unary operators bind tightest, then
    /// multiplication and division, then the additive operators.
    pub open spec fn spec_precedence(&self) -> i32 {
        match *self {
            Op::In(In::Pow) => 4,
            Op::In(In::Mul) | Op::In(In::Div) => 3,
            Op::In(In::Add) | Op::In(In::Sub) | Op::In(In::PlusMinus) => 2,
            Op::Pre(_) => 4,
            Op::Post(_) => 4,
        }
    }

    /// Whether operators of equal precedence group from the left.
    ///
    /// Exponentiation and the prefix operators group from the right, all
    /// others from the left.
    pub open spec fn spec_is_left_associative(&self) -> bool {
        match *self {
            Op::In(In::Pow) => false,
            Op::In(_) => true,
            Op::Pre(_) => false,
            Op::Post(_) => true,
        }
    }

    /// The canonical display symbol of the operator.
    pub open spec fn symbol(&self) -> Seq<char> {
        match *self {
            Op::In(In::Pow) => seq!['^'],
            Op::In(In::Mul) => seq!['*'],
            Op::In(In::Div) => seq!['/'],
            Op::In(In::Add) => seq!['+'],
            Op::In(In::Sub) => seq!['-'],
            Op::In(In::PlusMinus) => seq!['±'],
            Op::Pre(Pre::Neg) => seq!['-'],
            Op::Pre(Pre::Pos) => seq!['+'],
            Op::Pre(Pre::PosNeg) => seq!['±'],
            Op::Post(Post::Fact) => seq!['!'],
            Op::Post(Post::Percent) => seq!['%'],
        }
    }

    /// The reduce rule of operator-precedence parsing: the pending operator
    /// `other` is applied before `self` when it binds tighter, or binds
    /// equally and groups from the left.
    pub open spec fn spec_should_shunt(&self, other: &Op) -> bool {
        other.spec_precedence() > self.spec_precedence() || (other.spec_precedence()
            == self.spec_precedence() && other.spec_is_left_associative())
    }

    /// Returns the precedence of the operator.
    #[verifier::when_used_as_spec(spec_precedence)]
    pub fn precedence(&self) -> (p: i32)
        ensures
            p == self.spec_precedence(),
    {
        match *self {
            Op::In(op) => match op {
                In::Pow => 4,
                In::Mul | In::Div => 3,
                In::Add | In::Sub | In::PlusMinus => 2,
            },
            Op::Pre(op) => match op {
                Pre::Neg | Pre::Pos | Pre::PosNeg => 4,
            },
            Op::Post(op) => match op {
                Post::Fact => 4,
                Post::Percent => 4,
            },
        }
    }

    /// Returns whether the operator groups from the left.
    #[verifier::when_used_as_spec(spec_is_left_associative)]
    pub fn is_left_associative(&self) -> (left: bool)
        ensures
            left == self.spec_is_left_associative(),
    {
        match *self {
            Op::In(op) => match op {
                In::Pow => false,
                In::Mul | In::Div | In::Add | In::Sub | In::PlusMinus => true,
            },
            Op::Pre(op) => match op {
                Pre::Neg | Pre::Pos | Pre::PosNeg => false,
            },
            Op::Post(op) => match op {
                Post::Fact => true,
                Post::Percent => true,
            },
        }
    }

    /// Returns the display symbol of the operator as an owned string.
    pub fn to_string(&self) -> (s: String)
        ensures
            s@ == self.symbol(),
    {
        proof {
            reveal_strlit("^");
            reveal_strlit("*");
            reveal_strlit("/");
            reveal_strlit("+");
            reveal_strlit("-");
            reveal_strlit("±");
            reveal_strlit("!");
            reveal_strlit("%");
        }
        let symbol = match *self {
            Op::In(op) => match op {
                In::Pow => "^",
                In::Mul => "*",
                In::Div => "/",
                In::Add => "+",
                In::Sub => "-",
                In::PlusMinus => "±",
            },
            Op::Pre(op) => match op {
                Pre::Neg => "-",
                Pre::Pos => "+",
                Pre::PosNeg => "±",
            },
            Op::Post(op) => match op {
                Post::Fact => "!",
                Post::Percent => "%",
            },
        };
        assert(symbol@ =~= self.symbol());
        String::from_str(symbol)
    }

    /// True if the pending operator `other` should be evaluated before this
    /// one.
    #[verifier::when_used_as_spec(spec_should_shunt)]
    pub fn should_shunt(&self, other: &Op) -> (shunt: bool)
        ensures
            shunt == self.spec_should_shunt(other),
    {
        if (other.precedence() > self.precedence()) || (other.precedence() == self.precedence()
            && other.is_left_associative()) {
            true
        } else {
            false
        }
    }

    /// Every operator has one of the three precedence levels.
    pub proof fn lemma_precedence_levels(self)
        ensures
            2 <= self.precedence() <= 4,
            self is Pre || self is Post ==> self.precedence() == 4,
    {
    }

    /// A pending operator that binds strictly tighter is always applied
    /// first, and never gives way in return.
    pub proof fn lemma_tighter_binds_first(self, other: Op)
        requires
            other.precedence() > self.precedence(),
        ensures
            self.should_shunt(&other),
            !other.should_shunt(&self),
    {
    }

    /// Between operators of equal precedence the pending one is applied
    /// first exactly when it groups from the left. In particular an
    /// operator gives way to itself exactly when it is left-associative.
    pub proof fn lemma_equal_precedence_goes_by_associativity(self, other: Op)
        requires
            other.precedence() == self.precedence(),
        ensures
            self.should_shunt(&other) == other.is_left_associative(),
            self.should_shunt(&self) == self.is_left_associative(),
    {
    }
}

/// A grouping marker. It has no precedence and takes no part in ordering
/// decisions; it only has a display symbol.
#[derive(Debug, Clone, Copy, PartialEq, Eq, Structural)]
pub enum Paren {
    Open,
    Close,
}

impl Paren {
    /// The display symbol of the marker.
    pub open spec fn symbol(&self) -> Seq<char> {
        match *self {
            Paren::Open => seq!['('],
            Paren::Close => seq![')'],
        }
    }

    /// Returns the display symbol: `(` or `)`.
    pub fn to_str(&self) -> (s: &'static str)
        ensures
            s@ == self.symbol(),
    {
        proof {
            reveal_strlit("(");
            reveal_strlit(")");
        }
        let symbol = match *self {
            Paren::Open => "(",
            Paren::Close => ")",
        };
        assert(symbol@ =~= self.symbol());
        symbol
    }
}

} // verus!
