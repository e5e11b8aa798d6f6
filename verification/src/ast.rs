//! Syntax-side values handed to the object tree by the parser: source
//! locations, path operators, variable type annotations, parameters,
//! expressions and the constants they fold to.
//!
//! Expression parsing and full constant evaluation live outside this crate;
//! here an expression either carries a constant literal ready for folding or
//! is opaque to the folder.

use vstd::prelude::*;
use crate::diag::{DMError, ErrorKind};

verus! {

/// A position in a source file: file id, line and column.
#[derive(Clone, Copy, PartialEq, Eq, Structural, Debug)]
pub struct Location {
    pub file: u32,
    pub line: u32,
    pub column: u16,
}

impl Default for Location {
    /// The placeholder location used for nodes no source text names.
    fn default() -> (r: Location)
        ensures
            r == (Location { file: 0, line: 0, column: 0 }),
    {
        Location { file: 0, line: 0, column: 0 }
    }
}

/// The three relative-path operators of the language.
#[derive(Clone, Copy, PartialEq, Eq, Structural, Debug)]
pub enum PathOp {
    /// `/`: only a direct child.
    Slash,
    /// `.`: a child of this node or of any lexical ancestor.
    Dot,
    /// `:`: a child of this node or of any node below it, depth first.
    Colon,
}

/// The static type annotation of a variable declaration: qualifier flags and
/// the declared type path, one segment per element.
#[derive(Debug, PartialEq)]
pub struct VarType {
    pub is_static: bool,
    pub is_const: bool,
    pub is_tmp: bool,
    pub type_path: Vec<String>,
}

/// Trailing list dimensions of a variable declaration, e.g. `var/x[3]`; each
/// element is one bracket pair with its optional size expression.
#[derive(Debug)]
pub struct VarSuffix {
    pub list: Vec<Option<Expression>>,
}

impl VarSuffix {
    /// A suffix with no bracket pairs.
    pub fn none() -> (r: VarSuffix)
        ensures
            r.list@.len() == 0,
    {
        VarSuffix { list: Vec::new() }
    }

    /// The implicit initializer a bracketed declaration carries: none when
    /// there are no brackets, otherwise a list construction the constant
    /// folder does not evaluate.
    pub fn into_initializer(self) -> (r: Option<Expression>)
        ensures
            self.list@.len() == 0 ==> r is None,
            self.list@.len() > 0 ==> (r matches Some(e) && e is Opaque),
    {
        if self.list.len() == 0 {
            None
        } else {
            Some(Expression::Opaque)
        }
    }
}

impl VarType {
    /// Wraps the declared type in one `list` layer per bracket pair of the
    /// suffix, front first.
    pub fn suffix(&mut self, suffix: &VarSuffix)
        ensures
            final(self).is_static == old(self).is_static,
            final(self).is_const == old(self).is_const,
            final(self).is_tmp == old(self).is_tmp,
            final(self).type_path@.len() == old(self).type_path@.len() + suffix.list@.len(),
            forall|i: int|
                0 <= i < suffix.list@.len() ==> final(self).type_path@[i]@ == "list"@,
            forall|i: int|
                0 <= i < old(self).type_path@.len() ==> final(self).type_path@[
                    suffix.list@.len() + i
                ] == old(self).type_path@[i],
    {
        let n = suffix.list.len();
        let mut k: usize = 0;
        while k < n
            invariant
                self.is_static == old(self).is_static,
                self.is_const == old(self).is_const,
                self.is_tmp == old(self).is_tmp,
                k <= n,
                self.type_path@.len() == old(self).type_path@.len() + k,
                forall|i: int| 0 <= i < k ==> self.type_path@[i]@ == "list"@,
                forall|i: int|
                    0 <= i < old(self).type_path@.len() ==> self.type_path@[k + i] == old(
                        self,
                    ).type_path@[i],
            decreases n - k,
        {
            self.type_path.insert(0, String::from_str("list"));
            k += 1;
        }
    }
}

/// A formal parameter of a procedure.
#[derive(Debug)]
pub struct Parameter {
    pub var_type: VarType,
    pub name: String,
}

/// One statement of a procedure body.  Statement structure is the parser's
/// business; the object tree only stores bodies.
#[derive(Debug)]
pub struct Statement {
    pub expr: Expression,
}

/// A syntactic initializer expression.  The tree stores expressions verbatim;
/// only constant literals are folded here, everything else is left to the
/// full evaluator outside this crate.
#[derive(Debug)]
pub enum Expression {
    /// A literal already in constant form.
    Literal(Constant),
    /// Any expression the simple folder does not evaluate.
    Opaque,
}

/// An evaluated constant value.
#[derive(Debug, PartialEq)]
pub enum Constant {
    Null,
    Int(i64),
    Str(String),
    Prefab(Prefab),
}

/// A type-reference constant: a path plus the names of any variable
/// overrides attached to it.
#[derive(Debug, PartialEq)]
pub struct Prefab {
    pub path: Vec<String>,
    pub vars: Vec<String>,
}

/// Holds when two constants carry the same value, comparing strings and
/// path segments by content.
pub open spec fn same_constant(a: Constant, b: Constant) -> bool {
    match (a, b) {
        (Constant::Null, Constant::Null) => true,
        (Constant::Int(x), Constant::Int(y)) => x == y,
        (Constant::Str(x), Constant::Str(y)) => x@ == y@,
        (Constant::Prefab(x), Constant::Prefab(y)) => x.path@ == y.path@ && x.vars@ == y.vars@,
        _ => false,
    }
}

impl Constant {
    /// A copy of this constant, equal in content.
    pub fn duplicate(&self) -> (r: Constant)
        ensures
            same_constant(r, *self),
    {
        match self {
            Constant::Null => Constant::Null,
            Constant::Int(n) => Constant::Int(*n),
            Constant::Str(s) => Constant::Str(s.clone()),
            Constant::Prefab(p) => {
                let path = clone_strings(&p.path);
                let vars = clone_strings(&p.vars);
                Constant::Prefab(Prefab { path, vars })
            },
        }
    }
}

impl Expression {
    /// Folds this expression to a constant the way the external evaluator
    /// does for the simple cases: a literal folds to its value, anything
    /// else is reported as not constant, at the given location.
    pub fn simple_evaluate(&self, location: Location) -> (r: Result<Constant, DMError>)
        ensures
            *self matches Expression::Literal(c) ==> (r matches Ok(v) && same_constant(v, c)),
            *self is Opaque ==> r == Err::<Constant, DMError>(
                DMError { location, kind: ErrorKind::NotAConstant },
            ),
    {
        match self {
            Expression::Literal(c) => Ok(c.duplicate()),
            Expression::Opaque => Err(DMError::new(location, ErrorKind::NotAConstant)),
        }
    }
}

/// Accumulated documentation blocks, in source order.
#[derive(Debug, PartialEq)]
pub struct DocCollection {
    pub elems: Vec<String>,
}

impl DocCollection {
    /// An empty collection.
    pub fn new() -> (r: DocCollection)
        ensures
            r.elems@.len() == 0,
    {
        DocCollection { elems: Vec::new() }
    }

    /// Appends one documentation block.
    pub fn push(&mut self, text: String)
        ensures
            final(self).elems@ == old(self).elems@.push(text),
    {
        self.elems.push(text);
    }

    /// Appends every block of `other`, keeping order.
    pub fn extend(&mut self, other: DocCollection)
        ensures
            final(self).elems@ == old(self).elems@ + other.elems@,
    {
        let mut o = other;
        self.elems.append(&mut o.elems);
    }

    /// Whether no block has been collected.
    pub fn is_empty(&self) -> (r: bool)
        ensures
            r == (self.elems@.len() == 0),
    {
        self.elems.len() == 0
    }
}

/// An exact copy of a vector of strings.
pub fn clone_strings(v: &Vec<String>) -> (r: Vec<String>)
    ensures
        r@ == v@,
{
    let mut out: Vec<String> = Vec::new();
    let mut i: usize = 0;
    while i < v.len()
        invariant
            i <= v@.len(),
            out@.len() == i as int,
            forall|j: int| 0 <= j < i ==> out@[j] == v@[j],
        decreases v@.len() - i,
    {
        out.push(v[i].clone());
        i += 1;
    }
    proof {
        assert(out@ =~= v@);
    }
    out
}

} // verus!
