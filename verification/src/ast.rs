//! The abstract syntax tree: declared types, literal values, argument
//! definitions and statements, together with their mathematical views and
//! view-preserving copies.
use vstd::prelude::*;
use crate::literals::{bool_text, int_text};

verus! {

/// A declared type name: `string`, `int`, `float` or `bool`.
#[derive(Clone, Copy, Debug, PartialEq, Eq, Structural)]
pub enum Type {
    Str,
    Int,
    Float,
    Bool,
}

/// A literal value. A float is kept as its canonical decimal text, which is
/// exactly the text that interpolation prints for it.
#[derive(Debug, PartialEq)]
pub enum Value {
    Str(Vec<char>),
    Int(i64),
    Float(Vec<char>),
    Bool(bool),
}

/// The mathematical shape of a value.
pub enum ValueM {
    Str(Seq<char>),
    Int(i64),
    Float(Seq<char>),
    Bool(bool),
}

impl View for Value {
    type V = ValueM;

    open spec fn view(&self) -> ValueM {
        match self {
            Value::Str(s) => ValueM::Str(s@),
            Value::Int(n) => ValueM::Int(*n),
            Value::Float(t) => ValueM::Float(t@),
            Value::Bool(b) => ValueM::Bool(*b),
        }
    }
}

/// The text a value shows as during interpolation.
pub open spec fn value_text(v: ValueM) -> Seq<char> {
    match v {
        ValueM::Str(s) => s,
        ValueM::Int(n) => int_text(n as int),
        ValueM::Float(t) => t,
        ValueM::Bool(b) => bool_text(b),
    }
}

/// One declared parameter of a function: its name and its type.
#[derive(Debug, PartialEq)]
pub struct ArgumentDef {
    pub name: Vec<char>,
    pub argtype: Type,
}

/// The mathematical shape of a parameter definition.
pub struct ArgumentDefM {
    pub name: Seq<char>,
    pub argtype: Type,
}

impl View for ArgumentDef {
    type V = ArgumentDefM;

    open spec fn view(&self) -> ArgumentDefM {
        ArgumentDefM { name: self.name@, argtype: self.argtype }
    }
}

/// One statement: a function declaration with its parameter list and body, a
/// variable declaration with its resolved value, or a call with its resolved
/// literal arguments.
#[derive(Debug, PartialEq)]
pub enum LexType {
    Function(Vec<char>, Vec<ArgumentDef>, Vec<LexType>),
    Variable(Vec<char>, Type, Value),
    FunctionCall(Vec<char>, Vec<Value>),
}

/// The mathematical shape of a statement.
pub enum NodeM {
    Function(Seq<char>, Seq<ArgumentDefM>, Seq<NodeM>),
    Variable(Seq<char>, Type, ValueM),
    FunctionCall(Seq<char>, Seq<ValueM>),
}

/// The view of a single statement.
pub open spec fn node_view(n: LexType) -> NodeM
    decreases n via node_view_decreases
{
    match n {
        LexType::Function(name, args, body) => NodeM::Function(
            name@,
            argdef_views(args@),
            node_views(body@),
        ),
        LexType::Variable(name, t, v) => NodeM::Variable(name@, t, v@),
        LexType::FunctionCall(name, args) => NodeM::FunctionCall(name@, value_views(args@)),
    }
}

/// Views of a whole statement list.
pub open spec fn node_views(nodes: Seq<LexType>) -> Seq<NodeM>
    decreases nodes via node_views_decreases
{
    if nodes.len() == 0 {
        Seq::empty()
    } else {
        seq![node_view(nodes[0])] + node_views(nodes.subrange(1, nodes.len() as int))
    }
}

#[via_fn]
proof fn node_view_decreases(n: LexType) {
    match n {
        LexType::Function(name, args, body) => {
            assert(decreases_to!(n => n->Function_2));
            assert(decreases_to!(body => body@));
        },
        _ => {},
    }
}

#[via_fn]
proof fn node_views_decreases(nodes: Seq<LexType>) {
    if nodes.len() > 0 {
        vstd::seq::axiom_seq_subrange_decreases(nodes, 1, nodes.len() as int);
    }
}

impl View for LexType {
    type V = NodeM;

    open spec fn view(&self) -> NodeM {
        node_view(*self)
    }
}

/// Viewing a list with one statement put in front.
pub proof fn lemma_node_views_cons(s: Seq<LexType>, n: LexType)
    ensures
        node_views(seq![n] + s) == seq![node_view(n)] + node_views(s),
{
    let t = seq![n] + s;
    lemma_node_views_index(t);
    lemma_node_views_index(s);
    assert(node_views(t) =~= seq![node_view(n)] + node_views(s)) by {
        assert(t[0] == n);
        assert forall|k: int| 0 <= k < t.len() implies #[trigger] node_views(t)[k] == (seq![
            node_view(n),
        ] + node_views(s))[k] by {
            if k > 0 {
                assert(t[k] == s[k - 1]);
            }
        }
    }
}

/// The views of a list come element by element.
pub proof fn lemma_node_views_index(nodes: Seq<LexType>)
    ensures
        node_views(nodes).len() == nodes.len(),
        forall|i: int| 0 <= i < nodes.len() ==> #[trigger] node_views(nodes)[i] == nodes[i]@,
    decreases nodes.len(),
{
    if nodes.len() > 0 {
        lemma_node_views_index(nodes.subrange(1, nodes.len() as int));
        assert forall|i: int| 0 <= i < nodes.len() implies #[trigger] node_views(nodes)[i] == nodes[i]@ by {
            if i > 0 {
                assert(nodes.subrange(1, nodes.len() as int)[i - 1] == nodes[i]);
            }
        }
    }
}

/// Views of a value list.
pub open spec fn value_views(vs: Seq<Value>) -> Seq<ValueM> {
    vs.map_values(|v: Value| v@)
}

/// Views of a parameter list.
pub open spec fn argdef_views(a: Seq<ArgumentDef>) -> Seq<ArgumentDefM> {
    a.map_values(|d: ArgumentDef| d@)
}

/// Copies a character string.
pub fn clone_chars(v: &Vec<char>) -> (r: Vec<char>)
    ensures
        r@ == v@,
{
    let mut r: Vec<char> = Vec::new();
    let mut i: usize = 0;
    while i < v.len()
        invariant
            0 <= i <= v@.len(),
            r@ == v@.take(i as int),
        decreases v@.len() - i,
    {
        proof {
            assert(v@.take(i + 1) =~= v@.take(i as int).push(v@[i as int]));
        }
        r.push(v[i]);
        i = i + 1;
    }
    proof {
        assert(v@.take(v@.len() as int) =~= v@);
    }
    r
}

impl Value {
    /// A copy with the same mathematical value.
    pub fn duplicate(&self) -> (r: Value)
        ensures
            r@ == self@,
    {
        match self {
            Value::Str(s) => Value::Str(clone_chars(s)),
            Value::Int(n) => Value::Int(*n),
            Value::Float(t) => Value::Float(clone_chars(t)),
            Value::Bool(b) => Value::Bool(*b),
        }
    }
}

/// Copies a value list.
pub fn clone_values(v: &Vec<Value>) -> (r: Vec<Value>)
    ensures
        value_views(r@) == value_views(v@),
{
    let mut r: Vec<Value> = Vec::new();
    let mut i: usize = 0;
    while i < v.len()
        invariant
            0 <= i <= v@.len(),
            r@.len() == i,
            forall|j: int| 0 <= j < i ==> r@[j]@ == v@[j]@,
        decreases v@.len() - i,
    {
        r.push(v[i].duplicate());
        i = i + 1;
    }
    proof {
        assert(value_views(r@) =~= value_views(v@));
    }
    r
}

impl ArgumentDef {
    /// A copy with the same mathematical value.
    pub fn duplicate(&self) -> (r: ArgumentDef)
        ensures
            r@ == self@,
    {
        ArgumentDef { name: clone_chars(&self.name), argtype: self.argtype }
    }
}

/// Copies a parameter list.
pub fn clone_argdefs(v: &Vec<ArgumentDef>) -> (r: Vec<ArgumentDef>)
    ensures
        argdef_views(r@) == argdef_views(v@),
{
    let mut r: Vec<ArgumentDef> = Vec::new();
    let mut i: usize = 0;
    while i < v.len()
        invariant
            0 <= i <= v@.len(),
            r@.len() == i,
            forall|j: int| 0 <= j < i ==> r@[j]@ == v@[j]@,
        decreases v@.len() - i,
    {
        r.push(v[i].duplicate());
        i = i + 1;
    }
    proof {
        assert(argdef_views(r@) =~= argdef_views(v@));
    }
    r
}

impl LexType {
    /// A copy with the same mathematical value.
    pub fn duplicate(&self) -> (r: LexType)
        ensures
            r@ == self@,
        decreases self,
    {
        match self {
            LexType::Function(name, args, body) => {
                let name2 = clone_chars(name);
                let args2 = clone_argdefs(args);
                let mut body2: Vec<LexType> = Vec::new();
                let mut i: usize = 0;
                while i < body.len()
                    invariant
                        0 <= i <= body@.len(),
                        body2@.len() == i,
                        *self is Function,
                        *body == self->Function_2,
                        forall|j: int| 0 <= j < i ==> body2@[j]@ == body@[j]@,
                    decreases body@.len() - i,
                {
                    proof {
                        assert(decreases_to!(*self => self->Function_2));
                        assert(decreases_to!(*body => body@));
                        assert(decreases_to!(body@ => body@[i as int]));
                        assert(decreases_to!(*self => body@[i as int]));
                    }
                    body2.push(body[i].duplicate());
                    i = i + 1;
                }
                proof {
                    lemma_node_views_index(body2@);
                    lemma_node_views_index(body@);
                    assert(node_views(body2@) =~= node_views(body@));
                    assert(argdef_views(args2@) =~= argdef_views(args@));
                }
                LexType::Function(name2, args2, body2)
            },
            LexType::Variable(name, t, v) => LexType::Variable(clone_chars(name), *t, v.duplicate()),
            LexType::FunctionCall(name, args) => LexType::FunctionCall(
                clone_chars(name),
                clone_values(args),
            ),
        }
    }
}

/// Copies a statement list.
pub fn clone_nodes(v: &Vec<LexType>) -> (r: Vec<LexType>)
    ensures
        node_views(r@) == node_views(v@),
{
    let mut r: Vec<LexType> = Vec::new();
    let mut i: usize = 0;
    while i < v.len()
        invariant
            0 <= i <= v@.len(),
            r@.len() == i,
            forall|j: int| 0 <= j < i ==> r@[j]@ == v@[j]@,
        decreases v@.len() - i,
    {
        r.push(v[i].duplicate());
        i = i + 1;
    }
    proof {
        lemma_node_views_index(r@);
        lemma_node_views_index(v@);
        assert(node_views(r@) =~= node_views(v@));
    }
    r
}

} // verus!
