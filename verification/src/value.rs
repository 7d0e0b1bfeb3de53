//! The runtime value model: a tagged union of number, boolean, nil and
//! string, with type-checked operator semantics.
//!
//! Numbers are 64-bit signed integers; arithmetic that leaves that range is
//! reported as a runtime error rather than wrapping. `+` adds numbers and
//! concatenates strings; `==`/`!=` use structural equality with no coercion;
//! the ordering operators compare through one total order on values: kinds
//! are ranked boolean < number < nil < string, and two values of the same
//! kind compare naturally (strings lexicographically by character).

use vstd::prelude::*;

verus! {

/// A runtime value.
#[derive(Debug, PartialEq, Clone)]
pub enum Value {
    Bool(bool),
    Num(i64),
    Nil,
    String(String),
}

/// The mathematical model of a runtime value.
pub enum ValueModel {
    Bool(bool),
    Num(int),
    Nil,
    Str(Seq<char>),
}

impl View for Value {
    type V = ValueModel;

    open spec fn view(&self) -> ValueModel {
        match self {
            Value::Bool(b) => ValueModel::Bool(*b),
            Value::Num(n) => ValueModel::Num(*n as int),
            Value::Nil => ValueModel::Nil,
            Value::String(s) => ValueModel::Str(s@),
        }
    }
}

/// The ways evaluation can fail at run time. One failing statement is
/// reported and does not stop the rest of the program.
#[derive(Clone, Copy, PartialEq, Eq, Structural, Debug)]
pub enum RuntimeError {
    /// A name that no scope binds was read or assigned.
    UndefinedVariable,
    /// The nearest binding for the name exists but was declared without an
    /// initializer and never assigned.
    UninitializedVariable,
    /// An operator was applied to operand kinds it is not defined for.
    TypeError,
    /// The right operand of `/` was zero.
    DivisionByZero,
    /// An arithmetic result left the 64-bit signed range.
    Overflow,
}

impl RuntimeError {
    /// The diagnostic text of this error.
    pub open spec fn spec_message(self) -> Seq<char> {
        match self {
            RuntimeError::UndefinedVariable => "Variable is undefined."@,
            RuntimeError::UninitializedVariable => "Variable is not initialized."@,
            RuntimeError::TypeError => "Operands have unsupported types."@,
            RuntimeError::DivisionByZero => "Division by zero."@,
            RuntimeError::Overflow => "Arithmetic overflow."@,
        }
    }

    /// The diagnostic text of this error.
    pub fn message(&self) -> (r: String)
        ensures
            r@ == self.spec_message(),
    {
        match self {
            RuntimeError::UndefinedVariable => String::from_str("Variable is undefined."),
            RuntimeError::UninitializedVariable => String::from_str("Variable is not initialized."),
            RuntimeError::TypeError => String::from_str("Operands have unsupported types."),
            RuntimeError::DivisionByZero => String::from_str("Division by zero."),
            RuntimeError::Overflow => String::from_str("Arithmetic overflow."),
        }
    }
}

/// The model of a value-or-error result, for stating contracts.
pub open spec fn result_model(r: Result<Value, RuntimeError>) -> Result<ValueModel, RuntimeError> {
    match r {
        Ok(v) => Ok(v@),
        Err(e) => Err(e),
    }
}

pub open spec fn num_in_range(n: int) -> bool {
    i64::MIN <= n <= i64::MAX
}

/// Truncated integer division, the semantics of `/` on 64-bit integers.
pub open spec fn trunc_div(x: int, y: int) -> int {
    if x == 0 {
        0
    } else if x > 0 && y > 0 {
        x / y
    } else if x < 0 && y < 0 {
        (x * -1) / (y * -1)
    } else if x < 0 {
        ((x * -1) / y) * -1
    } else {
        (x / (y * -1)) * -1
    }
}

/// What `+` yields: the sum of two numbers, the concatenation of two
/// strings, and a type error for every other pairing.
pub open spec fn spec_add(a: ValueModel, b: ValueModel) -> Result<ValueModel, RuntimeError> {
    match (a, b) {
        (ValueModel::Num(x), ValueModel::Num(y)) => if num_in_range(x + y) {
            Ok(ValueModel::Num(x + y))
        } else {
            Err(RuntimeError::Overflow)
        },
        (ValueModel::Str(x), ValueModel::Str(y)) => Ok(ValueModel::Str(x + y)),
        _ => Err(RuntimeError::TypeError),
    }
}

/// What `-` yields: defined for two numbers only.
pub open spec fn spec_sub(a: ValueModel, b: ValueModel) -> Result<ValueModel, RuntimeError> {
    match (a, b) {
        (ValueModel::Num(x), ValueModel::Num(y)) => if num_in_range(x - y) {
            Ok(ValueModel::Num(x - y))
        } else {
            Err(RuntimeError::Overflow)
        },
        _ => Err(RuntimeError::TypeError),
    }
}

/// What `*` yields: defined for two numbers only.
pub open spec fn spec_mul(a: ValueModel, b: ValueModel) -> Result<ValueModel, RuntimeError> {
    match (a, b) {
        (ValueModel::Num(x), ValueModel::Num(y)) => if num_in_range(x * y) {
            Ok(ValueModel::Num(x * y))
        } else {
            Err(RuntimeError::Overflow)
        },
        _ => Err(RuntimeError::TypeError),
    }
}

/// What `/` yields: truncated division of two numbers; division by zero is
/// reported, as is the one quotient that leaves the 64-bit range.
pub open spec fn spec_div(a: ValueModel, b: ValueModel) -> Result<ValueModel, RuntimeError> {
    match (a, b) {
        (ValueModel::Num(x), ValueModel::Num(y)) => if y == 0 {
            Err(RuntimeError::DivisionByZero)
        } else if num_in_range(trunc_div(x, y)) {
            Ok(ValueModel::Num(trunc_div(x, y)))
        } else {
            Err(RuntimeError::Overflow)
        },
        _ => Err(RuntimeError::TypeError),
    }
}

/// What unary `!` yields: the negation of a boolean, a type error otherwise.
pub open spec fn spec_not(a: ValueModel) -> Result<ValueModel, RuntimeError> {
    match a {
        ValueModel::Bool(b) => Ok(ValueModel::Bool(!b)),
        _ => Err(RuntimeError::TypeError),
    }
}

/// What unary `-` yields: the arithmetic negation of a number, a type error
/// otherwise.
pub open spec fn spec_neg(a: ValueModel) -> Result<ValueModel, RuntimeError> {
    match a {
        ValueModel::Num(x) => if num_in_range(-x) {
            Ok(ValueModel::Num(-x))
        } else {
            Err(RuntimeError::Overflow)
        },
        _ => Err(RuntimeError::TypeError),
    }
}

/// Rank of a value's kind in the total order on values.
pub open spec fn kind_rank(v: ValueModel) -> int {
    match v {
        ValueModel::Bool(_) => 0,
        ValueModel::Num(_) => 1,
        ValueModel::Nil => 2,
        ValueModel::Str(_) => 3,
    }
}

/// Lexicographic order on character sequences.
pub open spec fn str_lt(a: Seq<char>, b: Seq<char>) -> bool
    decreases a.len(),
{
    if b.len() == 0 {
        false
    } else if a.len() == 0 {
        true
    } else if a[0] != b[0] {
        (a[0] as u32) < (b[0] as u32)
    } else {
        str_lt(a.drop_first(), b.drop_first())
    }
}

/// The strict total order on values: by kind rank first, then naturally
/// within one kind.
pub open spec fn spec_lt(a: ValueModel, b: ValueModel) -> bool {
    if kind_rank(a) != kind_rank(b) {
        kind_rank(a) < kind_rank(b)
    } else {
        match (a, b) {
            (ValueModel::Bool(x), ValueModel::Bool(y)) => !x && y,
            (ValueModel::Num(x), ValueModel::Num(y)) => x < y,
            (ValueModel::Str(x), ValueModel::Str(y)) => str_lt(x, y),
            _ => false,
        }
    }
}

pub open spec fn spec_le(a: ValueModel, b: ValueModel) -> bool {
    spec_lt(a, b) || a == b
}

pub open spec fn spec_gt(a: ValueModel, b: ValueModel) -> bool {
    spec_lt(b, a)
}

pub open spec fn spec_ge(a: ValueModel, b: ValueModel) -> bool {
    spec_lt(b, a) || a == b
}

/// The decimal digit for one value below ten.
pub open spec fn digit_char(d: int) -> char {
    if d == 0 {
        '0'
    } else if d == 1 {
        '1'
    } else if d == 2 {
        '2'
    } else if d == 3 {
        '3'
    } else if d == 4 {
        '4'
    } else if d == 5 {
        '5'
    } else if d == 6 {
        '6'
    } else if d == 7 {
        '7'
    } else if d == 8 {
        '8'
    } else {
        '9'
    }
}

/// The decimal digits of a natural number, most significant first.
pub open spec fn dec_digits(n: nat) -> Seq<char>
    decreases n,
{
    if n < 10 {
        seq![digit_char(n as int)]
    } else {
        dec_digits(n / 10) + seq![digit_char((n % 10) as int)]
    }
}

/// The decimal rendering of an integer, with a leading `-` when negative.
pub open spec fn render_num(n: int) -> Seq<char> {
    if n >= 0 {
        dec_digits(n as nat)
    } else {
        seq!['-'] + dec_digits((-n) as nat)
    }
}

/// The textual rendering of a value, as the `print` statement writes it:
/// numbers in decimal, `true`/`false`/`nil` for the other atoms, and a
/// string as its own text.
pub open spec fn render_model(v: ValueModel) -> Seq<char> {
    match v {
        ValueModel::Bool(b) => if b {
            seq!['t', 'r', 'u', 'e']
        } else {
            seq!['f', 'a', 'l', 's', 'e']
        },
        ValueModel::Num(n) => render_num(n),
        ValueModel::Nil => seq!['n', 'i', 'l'],
        ValueModel::Str(s) => s,
    }
}

/// Appends one decimal digit to a string.
fn push_digit(s: &mut String, d: u64)
    requires
        d < 10,
    ensures
        final(s)@ == old(s)@ + seq![digit_char(d as int)],
{
    proof {
        reveal_strlit("0");
        reveal_strlit("1");
        reveal_strlit("2");
        reveal_strlit("3");
        reveal_strlit("4");
        reveal_strlit("5");
        reveal_strlit("6");
        reveal_strlit("7");
        reveal_strlit("8");
        reveal_strlit("9");
    }
    if d == 0 {
        s.append("0");
    } else if d == 1 {
        s.append("1");
    } else if d == 2 {
        s.append("2");
    } else if d == 3 {
        s.append("3");
    } else if d == 4 {
        s.append("4");
    } else if d == 5 {
        s.append("5");
    } else if d == 6 {
        s.append("6");
    } else if d == 7 {
        s.append("7");
    } else if d == 8 {
        s.append("8");
    } else {
        s.append("9");
    }
    proof {
        assert(s@ =~= old(s)@ + seq![digit_char(d as int)]);
    }
}

/// Appends the decimal digits of `n` to a string.
pub(crate) fn push_decimal(s: &mut String, n: u64)
    ensures
        final(s)@ == old(s)@ + dec_digits(n as nat),
    decreases n,
{
    if n < 10 {
        push_digit(s, n);
    } else {
        push_decimal(s, n / 10);
        push_digit(s, n % 10);
        proof {
            assert(s@ =~= old(s)@ + dec_digits(n as nat));
        }
    }
}

/// Lexicographic comparison of two string slices, character by character.
fn str_less(a: &str, b: &str) -> (r: bool)
    ensures
        r == str_lt(a@, b@),
    decreases a@.len(),
{
    let b_len = b.unicode_len();
    if b_len == 0 {
        false
    } else {
        let a_len = a.unicode_len();
        if a_len == 0 {
            true
        } else {
            let ca = a.get_char(0);
            let cb = b.get_char(0);
            if ca != cb {
                (ca as u32) < (cb as u32)
            } else {
                let ta = a.substring_char(1, a_len);
                let tb = b.substring_char(1, b_len);
                proof {
                    assert(ta@ =~= a@.drop_first());
                    assert(tb@ =~= b@.drop_first());
                }
                str_less(ta, tb)
            }
        }
    }
}

impl Value {
    /// A copy of this value with the same model.
    pub fn duplicate(&self) -> (r: Value)
        ensures
            r@ == self@,
    {
        match self {
            Value::Bool(b) => Value::Bool(*b),
            Value::Num(n) => Value::Num(*n),
            Value::Nil => Value::Nil,
            Value::String(s) => Value::String(s.clone()),
        }
    }

    /// Structural equality: kinds and contents must both match.
    pub fn equals(&self, other: &Value) -> (r: bool)
        ensures
            r == (self@ == other@),
    {
        match (self, other) {
            (Value::Bool(x), Value::Bool(y)) => x == y,
            (Value::Num(x), Value::Num(y)) => x == y,
            (Value::Nil, Value::Nil) => true,
            (Value::String(x), Value::String(y)) => *x == *y,
            _ => false,
        }
    }

    /// The strict order on values.
    pub fn less(&self, other: &Value) -> (r: bool)
        ensures
            r == spec_lt(self@, other@),
    {
        match (self, other) {
            (Value::Bool(x), Value::Bool(y)) => !*x && *y,
            (Value::Num(x), Value::Num(y)) => x < y,
            (Value::Nil, Value::Nil) => false,
            (Value::String(x), Value::String(y)) => str_less(x.as_str(), y.as_str()),
            (x, y) => {
                let rx = x.rank();
                let ry = y.rank();
                rx < ry
            },
        }
    }

    fn rank(&self) -> (r: u8)
        ensures
            r as int == kind_rank(self@),
    {
        match self {
            Value::Bool(_) => 0,
            Value::Num(_) => 1,
            Value::Nil => 2,
            Value::String(_) => 3,
        }
    }

    /// `+` on values: numeric addition or string concatenation.
    pub fn add(&self, other: &Value) -> (r: Result<Value, RuntimeError>)
        ensures
            result_model(r) == spec_add(self@, other@),
    {
        match (self, other) {
            (Value::Num(x), Value::Num(y)) => match x.checked_add(*y) {
                Some(s) => Ok(Value::Num(s)),
                None => Err(RuntimeError::Overflow),
            },
            (Value::String(x), Value::String(y)) => Ok(Value::String(x.clone().concat(y.as_str()))),
            _ => Err(RuntimeError::TypeError),
        }
    }

    /// `-` on values.
    pub fn sub(&self, other: &Value) -> (r: Result<Value, RuntimeError>)
        ensures
            result_model(r) == spec_sub(self@, other@),
    {
        match (self, other) {
            (Value::Num(x), Value::Num(y)) => match x.checked_sub(*y) {
                Some(s) => Ok(Value::Num(s)),
                None => Err(RuntimeError::Overflow),
            },
            _ => Err(RuntimeError::TypeError),
        }
    }

    /// `*` on values.
    pub fn mul(&self, other: &Value) -> (r: Result<Value, RuntimeError>)
        ensures
            result_model(r) == spec_mul(self@, other@),
    {
        match (self, other) {
            (Value::Num(x), Value::Num(y)) => match x.checked_mul(*y) {
                Some(s) => Ok(Value::Num(s)),
                None => Err(RuntimeError::Overflow),
            },
            _ => Err(RuntimeError::TypeError),
        }
    }

    /// `/` on values: truncated integer division.
    pub fn div(&self, other: &Value) -> (r: Result<Value, RuntimeError>)
        ensures
            result_model(r) == spec_div(self@, other@),
    {
        match (self, other) {
            (Value::Num(x), Value::Num(y)) => if *y == 0 {
                Err(RuntimeError::DivisionByZero)
            } else {
                match x.checked_div(*y) {
                    Some(q) => Ok(Value::Num(q)),
                    None => Err(RuntimeError::Overflow),
                }
            },
            _ => Err(RuntimeError::TypeError),
        }
    }

    /// Unary `!` on values: boolean negation.
    pub fn not(&self) -> (r: Result<Value, RuntimeError>)
        ensures
            result_model(r) == spec_not(self@),
    {
        match self {
            Value::Bool(b) => Ok(Value::Bool(!*b)),
            _ => Err(RuntimeError::TypeError),
        }
    }

    /// The textual rendering of this value, as `print` writes it.
    pub fn render(&self) -> (r: String)
        ensures
            r@ == render_model(self@),
    {
        match self {
            Value::Bool(b) => if *b {
                let r = String::from_str("true");
                proof {
                    reveal_strlit("true");
                    assert(r@ =~= render_model(self@));
                }
                r
            } else {
                let r = String::from_str("false");
                proof {
                    reveal_strlit("false");
                    assert(r@ =~= render_model(self@));
                }
                r
            },
            Value::Nil => {
                let r = String::from_str("nil");
                proof {
                    reveal_strlit("nil");
                    assert(r@ =~= render_model(self@));
                }
                r
            },
            Value::String(s) => s.clone(),
            Value::Num(n) => {
                let mut r = String::new();
                if *n >= 0 {
                    push_decimal(&mut r, *n as u64);
                } else {
                    proof {
                        reveal_strlit("-");
                    }
                    r.append("-");
                    let m: u64 = (-(*n as i128)) as u64;
                    push_decimal(&mut r, m);
                }
                proof {
                    assert(r@ =~= render_model(self@));
                }
                r
            },
        }
    }

    /// Unary `-` on values: arithmetic negation.
    pub fn neg(&self) -> (r: Result<Value, RuntimeError>)
        ensures
            result_model(r) == spec_neg(self@),
    {
        match self {
            Value::Num(x) => if *x == i64::MIN {
                Err(RuntimeError::Overflow)
            } else {
                Ok(Value::Num(-*x))
            },
            _ => Err(RuntimeError::TypeError),
        }
    }
}

} // verus!
