//! Runtime values: what evaluation produces, including the functions a
//! program can call.

use vstd::prelude::*;

verus! {

/// A runtime value. A number is held as the bit pattern of an IEEE-754
/// double; the arithmetic on it is done by the runtime's number host.
#[derive(Debug, PartialEq)]
pub enum Value {
    Number(u64),
    Str(String),
    Bool(bool),
    Nil,
    Callable(Callable),
}

/// Something that can be called: a function the program declared, or one
/// the interpreter provides.
#[derive(Debug, PartialEq)]
pub enum Callable {
    Function(Function),
    Native(NativeFunction),
}

/// A function the program declared: its name, how many parameters it
/// takes, which declaration it was made from (an index into the
/// interpreter's table of declarations), and the scope it closes over.
#[derive(Debug, PartialEq)]
pub struct Function {
    pub name: String,
    pub arity: usize,
    pub declaration: usize,
    pub env: usize,
}

/// The functions the interpreter provides.
#[derive(Debug, Clone, Copy, PartialEq, Eq, Structural)]
pub enum NativeKind {
    /// Seconds since the Unix epoch, as a number.
    Clock,
}

/// A function the interpreter provides: its name, arity and kind.
#[derive(Debug, PartialEq)]
pub struct NativeFunction {
    pub name: String,
    pub arity: usize,
    pub kind: NativeKind,
}

impl Clone for Function {
    fn clone(&self) -> (r: Self)
        ensures
            r == *self,
    {
        Function {
            name: self.name.clone(),
            arity: self.arity,
            declaration: self.declaration,
            env: self.env,
        }
    }
}

impl Clone for NativeFunction {
    fn clone(&self) -> (r: Self)
        ensures
            r == *self,
    {
        NativeFunction { name: self.name.clone(), arity: self.arity, kind: self.kind }
    }
}

impl Clone for Callable {
    fn clone(&self) -> (r: Self)
        ensures
            r == *self,
    {
        match self {
            Callable::Function(f) => Callable::Function(f.clone()),
            Callable::Native(n) => Callable::Native(n.clone()),
        }
    }
}

impl Clone for Value {
    fn clone(&self) -> (r: Self)
        ensures
            r == *self,
    {
        match self {
            Value::Number(n) => Value::Number(*n),
            Value::Str(s) => Value::Str(s.clone()),
            Value::Bool(b) => Value::Bool(*b),
            Value::Nil => Value::Nil,
            Value::Callable(c) => Value::Callable(c.clone()),
        }
    }
}

impl Value {
    /// Lox truthiness: everything but `nil` and `false` is true.
    pub open spec fn truthy(&self) -> bool {
        !(*self is Nil || *self == Value::Bool(false))
    }

    pub fn is_truthy(&self) -> (r: bool)
        ensures
            r == self.truthy(),
    {
        match self {
            Value::Nil => false,
            Value::Bool(b) => *b,
            _ => true,
        }
    }
}

impl Function {
    pub fn arity(&self) -> (r: usize)
        ensures
            r == self.arity,
    {
        self.arity
    }
}

impl NativeFunction {
    pub fn arity(&self) -> (r: usize)
        ensures
            r == self.arity,
    {
        self.arity
    }
}

impl Callable {
    /// How many arguments a call must pass.
    pub open spec fn spec_arity(&self) -> usize {
        match self {
            Callable::Function(f) => f.arity,
            Callable::Native(n) => n.arity,
        }
    }

    pub fn arity(&self) -> (r: usize)
        ensures
            r == self.spec_arity(),
    {
        match self {
            Callable::Function(func) => func.arity(),
            Callable::Native(native) => native.arity(),
        }
    }

    pub fn name(&self) -> (r: &str)
        ensures
            r@ == match self {
                Callable::Function(f) => f.name@,
                Callable::Native(n) => n.name@,
            },
    {
        match self {
            Callable::Function(func) => func.name.as_str(),
            Callable::Native(native) => native.name.as_str(),
        }
    }
}

/// The functions every program can call: `clock`, of no arguments.
pub fn native_functions() -> (r: Vec<(String, Callable)>)
    ensures
        r@.len() == 1,
        r@[0].0@ == "clock"@,
        r@[0].1 == Callable::Native(
            NativeFunction { name: r@[0].0, arity: 0, kind: NativeKind::Clock },
        ),
{
    let name = String::from_str("clock");
    let callable = Callable::Native(
        NativeFunction { name: name.clone(), arity: 0, kind: NativeKind::Clock },
    );
    let mut v = Vec::new();
    v.push((name, callable));
    v
}

} // verus!
