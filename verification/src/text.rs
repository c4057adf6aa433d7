//! Short descriptions, as text.

use vstd::prelude::*;
use vstd::string::*;
use crate::sign::{ShapeRef, Sign};
use crate::split::{CutOp, ShapeSplit};

verus! {

/// The character for a digit.
pub open spec fn spec_digit(d: nat) -> char {
    if d == 0 {
        '0'
    } else if d == 1 {
        '1'
    } else if d == 2 {
        '2'
    } else if d == 3 {
        '3'
    } else if d == 4 {
        '4'
    } else if d == 5 {
        '5'
    } else if d == 6 {
        '6'
    } else if d == 7 {
        '7'
    } else if d == 8 {
        '8'
    } else {
        '9'
    }
}

/// The decimal digits of a number, most significant first, without leading
/// zeros.
pub open spec fn spec_decimal(n: nat) -> Seq<char>
    decreases n,
{
    if n < 10 {
        seq![spec_digit(n)]
    } else {
        spec_decimal(n / 10).push(spec_digit(n % 10))
    }
}

/// Returns the text of a digit.
fn digit(d: u64) -> (s: &'static str)
    requires
        d < 10,
    ensures
        s@ == seq![spec_digit(d as nat)],
{
    proof {
        reveal_strlit("0");
        reveal_strlit("1");
        reveal_strlit("2");
        reveal_strlit("3");
        reveal_strlit("4");
        reveal_strlit("5");
        reveal_strlit("6");
        reveal_strlit("7");
        reveal_strlit("8");
        reveal_strlit("9");
    }
    let s = if d == 0 {
        "0"
    } else if d == 1 {
        "1"
    } else if d == 2 {
        "2"
    } else if d == 3 {
        "3"
    } else if d == 4 {
        "4"
    } else if d == 5 {
        "5"
    } else if d == 6 {
        "6"
    } else if d == 7 {
        "7"
    } else if d == 8 {
        "8"
    } else {
        "9"
    };
    assert(s@ =~= seq![spec_digit(d as nat)]);
    s
}

/// Returns a number in decimal.
pub fn decimal(n: u64) -> (s: String)
    ensures
        s@ == spec_decimal(n as nat),
    decreases n,
{
    if n < 10 {
        digit(n).to_owned()
    } else {
        let mut s = decimal(n / 10);
        s.append(digit(n % 10));
        assert(s@ =~= spec_decimal(n as nat));
        s
    }
}

/// The symbol of a sign.
pub open spec fn spec_sign_symbol(sign: Sign) -> Seq<char> {
    match sign {
        Sign::Pos => "+"@,
        Sign::Neg => "-"@,
    }
}

impl ShapeRef {
    /// The text of a reference: the symbol of its sign, a number sign, and
    /// the number of the shape.
    pub open spec fn spec_describe(self) -> Seq<char> {
        spec_sign_symbol(self.sign) + "#"@ + spec_decimal(self.id.0 as nat)
    }

    /// Returns the text of the reference, such as `+#12`.
    pub fn describe(self) -> (s: String)
        ensures
            s@ == self.spec_describe(),
    {
        let mut s = match self.sign {
            Sign::Pos => "+".to_owned(),
            Sign::Neg => "-".to_owned(),
        };
        s.append("#");
        s.append(decimal(self.id.0 as u64).as_str());
        s
    }
}

/// The text of an optional reference.
pub open spec fn spec_describe_option(r: Option<ShapeRef>) -> Seq<char> {
    match r {
        Some(r) => r.spec_describe(),
        None => "<none>"@,
    }
}

/// Returns the text of an optional reference: `<none>` where there is none.
pub fn describe_option(r: Option<ShapeRef>) -> (s: String)
    ensures
        s@ == spec_describe_option(r),
{
    match r {
        Some(r) => r.describe(),
        None => "<none>".to_owned(),
    }
}

impl ShapeSplit {
    /// The text of a split.
    pub open spec fn spec_describe(self) -> Seq<char> {
        match self {
            ShapeSplit::Flush => "Flush"@,
            ShapeSplit::ManifoldInside => "ManifoldInside"@,
            ShapeSplit::ManifoldOutside => "ManifoldOutside"@,
            ShapeSplit::NonFlush { inside, outside, intersection_shape } => "NonFlush { inside: "@
                + spec_describe_option(inside) + ", outside: "@ + spec_describe_option(outside)
                + ", intersection_shape: "@ + spec_describe_option(intersection_shape) + " }"@,
        }
    }

    /// Returns the text of the split.
    pub fn describe(self) -> (s: String)
        ensures
            s@ == self.spec_describe(),
    {
        match self {
            ShapeSplit::Flush => "Flush".to_owned(),
            ShapeSplit::ManifoldInside => "ManifoldInside".to_owned(),
            ShapeSplit::ManifoldOutside => "ManifoldOutside".to_owned(),
            ShapeSplit::NonFlush { inside, outside, intersection_shape } => {
                let mut s = "NonFlush { inside: ".to_owned();
                s.append(describe_option(inside).as_str());
                s.append(", outside: ");
                s.append(describe_option(outside).as_str());
                s.append(", intersection_shape: ");
                s.append(describe_option(intersection_shape).as_str());
                s.append(" }");
                s
            },
        }
    }
}

impl CutOp {
    /// The text of the operation.
    pub open spec fn spec_describe(self) -> Seq<char> {
        match self {
            CutOp::Remove => "REMOVE"@,
            CutOp::Keep(None) => "KEEP"@,
            CutOp::Keep(Some(metadata)) => "KEEP (data = "@ + spec_decimal(metadata as nat) + ")"@,
        }
    }

    /// Returns the text of the operation.
    pub fn describe(self) -> (s: String)
        ensures
            s@ == self.spec_describe(),
    {
        match self {
            CutOp::Remove => "REMOVE".to_owned(),
            CutOp::Keep(None) => "KEEP".to_owned(),
            CutOp::Keep(Some(metadata)) => {
                let mut s = "KEEP (data = ".to_owned();
                s.append(decimal(metadata as u64).as_str());
                s.append(")");
                s
            },
        }
    }
}

} // verus!
