//! The evaluator: walks the statement list in order, keeping a function
//! table and a variable table. Declarations overwrite table entries (last
//! write wins); a call copies the caller's function table and binds the
//! callee's parameters to the call's arguments positionally, truncating to
//! the shorter list, so the callee never sees the caller's variables. The
//! built-in `say` interpolates `@name*` spans in its first argument and
//! yields one output line.
//!
//! `spec_run` is the mathematical semantics; the executable `run` is proved
//! to return exactly its output lines and fault. `fuel` bounds call depth
//! and interpolation rounds, since the notation itself places no bound on
//! either; running out of it is a fault like any other in this crash-only
//! design.
use vstd::prelude::*;
use crate::ast::{
    ArgumentDef, ArgumentDefM, LexType, NodeM, Value, ValueM, argdef_views, clone_argdefs,
    clone_chars, clone_nodes, lemma_node_views_index, node_views, value_text, value_views,
};
use crate::literals::{bool_to_chars, char_index, chars_eq, copy_range, find_char, int_to_chars};

verus! {

/// What aborts a run. The system is crash-only: the first fault ends the
/// whole run and later statements do not execute.
#[derive(Debug, PartialEq)]
pub enum RunError {
    /// `say` was called without any argument.
    SayArgMissing,
    /// `say` was called with a non-string first argument.
    SayNotString,
    /// An interpolation close marker stands before the open marker.
    MalformedInterpolation,
    /// Interpolation named a variable with no binding.
    VariableNotFound(Vec<char>),
    /// A call named a function with no declaration in scope.
    FunctionNotFound(Vec<char>),
    /// Call depth or interpolation rounds exceeded the given fuel.
    OutOfFuel,
}

/// The mathematical shape of a fault.
pub enum RunErrorM {
    SayArgMissing,
    SayNotString,
    MalformedInterpolation,
    VariableNotFound(Seq<char>),
    FunctionNotFound(Seq<char>),
    OutOfFuel,
}

impl View for RunError {
    type V = RunErrorM;

    open spec fn view(&self) -> RunErrorM {
        match self {
            RunError::SayArgMissing => RunErrorM::SayArgMissing,
            RunError::SayNotString => RunErrorM::SayNotString,
            RunError::MalformedInterpolation => RunErrorM::MalformedInterpolation,
            RunError::VariableNotFound(n) => RunErrorM::VariableNotFound(n@),
            RunError::FunctionNotFound(n) => RunErrorM::FunctionNotFound(n@),
            RunError::OutOfFuel => RunErrorM::OutOfFuel,
        }
    }
}

pub open spec fn opt_err_view(r: Option<RunError>) -> Option<RunErrorM> {
    match r {
        Option::None => Option::None,
        Option::Some(e) => Option::Some(e@),
    }
}

/// A declared function as the tables hold it: its parameters and its body.
#[derive(Debug)]
pub struct Function {
    pub args: Vec<ArgumentDef>,
    pub scope: Vec<LexType>,
}

/// The mathematical shape of a table entry.
pub struct FunctionM {
    pub args: Seq<ArgumentDefM>,
    pub scope: Seq<NodeM>,
}

impl View for Function {
    type V = FunctionM;

    open spec fn view(&self) -> FunctionM {
        FunctionM { args: argdef_views(self.args@), scope: node_views(self.scope@) }
    }
}

impl Function {
    /// A copy with the same mathematical value.
    pub fn duplicate(&self) -> (r: Function)
        ensures
            r@ == self@,
    {
        Function { args: clone_argdefs(&self.args), scope: clone_nodes(&self.scope) }
    }
}

/// A name-to-value table. Insertion appends; lookup takes the latest entry,
/// so re-declaring a name silently overwrites. Its mathematical value is the
/// map from names to their latest values.
pub struct NameTable<V> {
    pub entries: Vec<(Vec<char>, V)>,
}

pub open spec fn entries_map<V: View>(entries: Seq<(Vec<char>, V)>) -> Map<Seq<char>, V::V>
    decreases entries.len(),
{
    if entries.len() == 0 {
        Map::empty()
    } else {
        entries_map(entries.drop_last()).insert(entries.last().0@, entries.last().1@)
    }
}

impl<V: View> View for NameTable<V> {
    type V = Map<Seq<char>, <V as View>::V>;

    open spec fn view(&self) -> Map<Seq<char>, <V as View>::V> {
        entries_map(self.entries@)
    }
}

impl<V: View> NameTable<V> {
    /// An empty table.
    pub fn new() -> (r: Self)
        ensures
            r@ == Map::<Seq<char>, <V as View>::V>::empty(),
    {
        let r = NameTable { entries: Vec::new() };
        proof {
            assert(r.entries@.len() == 0);
        }
        r
    }

    /// Binds a name, overwriting any earlier binding.
    pub fn insert(&mut self, name: Vec<char>, v: V)
        ensures
            final(self)@ == old(self)@.insert(name@, v@),
    {
        let ghost oldentries = self.entries@;
        self.entries.push((name, v));
        proof {
            assert(self.entries@.drop_last() =~= oldentries);
        }
    }

    /// Looks a name up: the latest binding wins.
    pub fn get(&self, name: &Vec<char>) -> (r: Option<&V>)
        ensures
            match r {
                Option::Some(v) => self@.contains_key(name@) && v@ == self@[name@],
                Option::None => !self@.contains_key(name@),
            },
    {
        let ghost key = name@;
        let mut j = self.entries.len();
        proof {
            assert(self.entries@.take(self.entries@.len() as int) =~= self.entries@);
        }
        while j > 0
            invariant
                0 <= j <= self.entries@.len(),
                key == name@,
                entries_map(self.entries@).contains_key(key) == entries_map(
                    self.entries@.take(j as int),
                ).contains_key(key),
                entries_map(self.entries@).contains_key(key) ==> entries_map(self.entries@)[key]
                    == entries_map(self.entries@.take(j as int))[key],
            decreases j,
        {
            j = j - 1;
            let ghost t1 = self.entries@.take(j + 1);
            proof {
                assert(t1.drop_last() =~= self.entries@.take(j as int));
                assert(t1.last() == self.entries@[j as int]);
                assert(entries_map(t1) == entries_map(self.entries@.take(j as int)).insert(
                    t1.last().0@,
                    t1.last().1@,
                ));
            }
            if chars_eq(&self.entries[j].0, name) {
                proof {
                    assert(entries_map(t1).contains_key(key));
                    assert(entries_map(t1)[key] == self.entries@[j as int].1@);
                }
                return Some(&self.entries[j].1);
            }
            proof {
                assert(t1.last().0@ != key);
            }
        }
        proof {
            assert(self.entries@.take(0) =~= Seq::<(Vec<char>, V)>::empty());
        }
        None
    }
}

impl NameTable<Function> {
    /// A copy with the same mathematical value, entry by entry.
    pub fn duplicate(&self) -> (r: NameTable<Function>)
        ensures
            r@ == self@,
    {
        let mut entries: Vec<(Vec<char>, Function)> = Vec::new();
        let mut i: usize = 0;
        while i < self.entries.len()
            invariant
                0 <= i <= self.entries@.len(),
                entries@.len() == i,
                forall|j: int| 0 <= j < i ==> #[trigger] entries@[j].0@ == self.entries@[j].0@
                    && entries@[j].1@ == self.entries@[j].1@,
            decreases self.entries@.len() - i,
        {
            let name = clone_chars(&self.entries[i].0);
            let f = self.entries[i].1.duplicate();
            entries.push((name, f));
            i = i + 1;
        }
        let r = NameTable { entries };
        proof {
            lemma_entries_map_congruent::<Function>(r.entries@, self.entries@);
        }
        r
    }
}

/// Tables whose entries agree pointwise have the same map.
proof fn lemma_entries_map_congruent<V: View>(a: Seq<(Vec<char>, V)>, b: Seq<(Vec<char>, V)>)
    requires
        a.len() == b.len(),
        forall|j: int| 0 <= j < a.len() ==> #[trigger] a[j].0@ == b[j].0@ && a[j].1@ == b[j].1@,
    ensures
        entries_map(a) == entries_map(b),
    decreases a.len(),
{
    if a.len() > 0 {
        assert(forall|j: int| 0 <= j < a.drop_last().len() ==> #[trigger] a.drop_last()[j]
            == a[j] && b.drop_last()[j] == b[j]);
        lemma_entries_map_congruent::<V>(a.drop_last(), b.drop_last());
        assert(a.last() == a[a.len() - 1]);
        assert(b.last() == b[b.len() - 1]);
    }
}

pub type FunTable = NameTable<Function>;

pub type VarTable = NameTable<Value>;

pub open spec fn say_name() -> Seq<char> {
    seq!['s', 'a', 'y']
}

/// The outcome of interpolation: the finished line, or a fault.
pub enum InterpOut {
    Done(Seq<char>),
    Fail(RunErrorM),
}

/// Iterative interpolation: while the string holds both an open marker `@`
/// and a close marker `*` anywhere, the span between the first of each is a
/// variable name; its value's text replaces the span, markers included, and
/// the search starts over on the whole string.
pub open spec fn spec_interpolate(
    s: Seq<char>,
    vars: Map<Seq<char>, ValueM>,
    fuel: nat,
) -> InterpOut
    decreases fuel,
{
    let r1 = char_index(s, '@');
    let r2 = char_index(s, '*');
    if r1 >= s.len() || r2 >= s.len() {
        InterpOut::Done(s)
    } else if r2 < r1 + 1 {
        InterpOut::Fail(RunErrorM::MalformedInterpolation)
    } else if fuel == 0 {
        InterpOut::Fail(RunErrorM::OutOfFuel)
    } else {
        let name = s.subrange(r1 + 1, r2);
        if !vars.contains_key(name) {
            InterpOut::Fail(RunErrorM::VariableNotFound(name))
        } else {
            spec_interpolate(
                s.subrange(0, r1) + value_text(vars[name]) + s.subrange(r2 + 1, s.len() as int),
                vars,
                (fuel - 1) as nat,
            )
        }
    }
}

/// The first `n` parameters bound to the first `n` arguments, in order, a
/// later duplicate name overwriting an earlier one.
pub open spec fn bind_params_upto(
    params: Seq<ArgumentDefM>,
    args: Seq<ValueM>,
    n: int,
) -> Map<Seq<char>, ValueM>
    decreases n,
{
    if n <= 0 {
        Map::empty()
    } else {
        bind_params_upto(params, args, n - 1).insert(params[n - 1].name, args[n - 1])
    }
}

/// The callee's fresh variable table: parameters paired with arguments
/// positionally, truncated to the shorter of the two lists.
pub open spec fn bind_params(params: Seq<ArgumentDefM>, args: Seq<ValueM>) -> Map<
    Seq<char>,
    ValueM,
> {
    bind_params_upto(
        params,
        args,
        if params.len() <= args.len() {
            params.len() as int
        } else {
            args.len() as int
        },
    )
}

/// The observable outcome of a run: the lines printed before it ended, and
/// the fault that ended it, if one did.
pub struct RunOut {
    pub lines: Seq<Seq<char>>,
    pub err: Option<RunErrorM>,
}

/// The semantics of a statement list under given tables.
pub open spec fn spec_run(
    nodes: Seq<NodeM>,
    funs: Map<Seq<char>, FunctionM>,
    vars: Map<Seq<char>, ValueM>,
    fuel: nat,
) -> RunOut
    decreases fuel, nodes.len(),
{
    if nodes.len() == 0 {
        RunOut { lines: Seq::empty(), err: Option::None }
    } else {
        let rest = nodes.drop_first();
        match nodes[0] {
            NodeM::Function(name, params, body) => spec_run(
                rest,
                funs.insert(name, FunctionM { args: params, scope: body }),
                vars,
                fuel,
            ),
            NodeM::Variable(name, ty, v) => spec_run(rest, funs, vars.insert(name, v), fuel),
            NodeM::FunctionCall(name, args) => {
                if name == say_name() {
                    if args.len() == 0 {
                        RunOut { lines: Seq::empty(), err: Option::Some(RunErrorM::SayArgMissing) }
                    } else {
                        match args[0] {
                            ValueM::Str(s) => match spec_interpolate(s, vars, fuel) {
                                InterpOut::Done(line) => {
                                    let r = spec_run(rest, funs, vars, fuel);
                                    RunOut { lines: seq![line] + r.lines, err: r.err }
                                },
                                InterpOut::Fail(e) => RunOut {
                                    lines: Seq::empty(),
                                    err: Option::Some(e),
                                },
                            },
                            _ => RunOut {
                                lines: Seq::empty(),
                                err: Option::Some(RunErrorM::SayNotString),
                            },
                        }
                    }
                } else if funs.contains_key(name) {
                    if fuel == 0 {
                        RunOut { lines: Seq::empty(), err: Option::Some(RunErrorM::OutOfFuel) }
                    } else {
                        let f = funs[name];
                        let sub = spec_run(
                            f.scope,
                            funs,
                            bind_params(f.args, args),
                            (fuel - 1) as nat,
                        );
                        if sub.err is Some {
                            sub
                        } else {
                            let r = spec_run(rest, funs, vars, fuel);
                            RunOut { lines: sub.lines + r.lines, err: r.err }
                        }
                    }
                } else {
                    RunOut {
                        lines: Seq::empty(),
                        err: Option::Some(RunErrorM::FunctionNotFound(name)),
                    }
                }
            },
        }
    }
}

/// Views of a list of output lines.
pub open spec fn line_views(lines: Seq<Vec<char>>) -> Seq<Seq<char>> {
    lines.map_values(|l: Vec<char>| l@)
}

/// The text a value shows as during interpolation.
pub fn value_to_chars(v: &Value) -> (r: Vec<char>)
    ensures
        r@ == value_text(v@),
{
    match v {
        Value::Str(s) => clone_chars(s),
        Value::Int(n) => int_to_chars(*n),
        Value::Float(t) => clone_chars(t),
        Value::Bool(b) => bool_to_chars(*b),
    }
}

/// Appends one string to another.
fn append_chars(dst: &mut Vec<char>, src: &Vec<char>)
    ensures
        final(dst)@ == old(dst)@ + src@,
{
    let mut i: usize = 0;
    while i < src.len()
        invariant
            0 <= i <= src@.len(),
            dst@ == old(dst)@ + src@.take(i as int),
        decreases src@.len() - i,
    {
        proof {
            assert(old(dst)@ + src@.take(i + 1) =~= (old(dst)@ + src@.take(i as int)).push(
                src@[i as int],
            ));
        }
        dst.push(src[i]);
        i = i + 1;
    }
    proof {
        assert(src@.take(src@.len() as int) =~= src@);
    }
}

/// Interpolates a `say` string against the variable table.
fn interpolate(s: &Vec<char>, vars: &VarTable, fuel: u64) -> (r: Result<Vec<char>, RunError>)
    ensures
        match r {
            Ok(line) => spec_interpolate(s@, vars@, fuel as nat) == InterpOut::Done(line@),
            Err(e) => spec_interpolate(s@, vars@, fuel as nat) == InterpOut::Fail(e@),
        },
{
    let mut cur = clone_chars(s);
    let mut left = fuel;
    loop
        invariant
            spec_interpolate(s@, vars@, fuel as nat) == spec_interpolate(
                cur@,
                vars@,
                left as nat,
            ),
        decreases left,
    {
        let r1 = find_char(&cur, '@');
        let r2 = find_char(&cur, '*');
        if r1 >= cur.len() || r2 >= cur.len() {
            return Ok(cur);
        }
        if r2 < r1 + 1 {
            return Err(RunError::MalformedInterpolation);
        }
        if left == 0 {
            return Err(RunError::OutOfFuel);
        }
        let name = copy_range(&cur, r1 + 1, r2);
        match vars.get(&name) {
            Option::None => {
                return Err(RunError::VariableNotFound(name));
            },
            Option::Some(v) => {
                let text = value_to_chars(v);
                let mut nxt = copy_range(&cur, 0, r1);
                append_chars(&mut nxt, &text);
                let tail = copy_range(&cur, r2 + 1, cur.len());
                append_chars(&mut nxt, &tail);
                proof {
                    assert(nxt@ == cur@.subrange(0, r1 as int) + value_text(vars@[name@])
                        + cur@.subrange(r2 + 1, cur@.len() as int));
                }
                cur = nxt;
                left = left - 1;
            },
        }
    }
}

/// Runs a statement list under the given tables, returning the lines printed
/// and the fault that ended the run early, if one did.
pub fn run(lexs: &Vec<LexType>, functions: FunTable, variables: VarTable, fuel: u64) -> (r: (
    Vec<Vec<char>>,
    Option<RunError>,
))
    ensures
        ({
            let o = spec_run(node_views(lexs@), functions@, variables@, fuel as nat);
            line_views(r.0@) == o.lines && opt_err_view(r.1) == o.err
        }),
    decreases fuel,
{
    let ghost nv = node_views(lexs@);
    let ghost full = spec_run(nv, functions@, variables@, fuel as nat);
    let mut funs = functions;
    let mut vars = variables;
    let mut out: Vec<Vec<char>> = Vec::new();
    let mut k: usize = 0;
    proof {
        lemma_node_views_index(lexs@);
        assert(nv.skip(0) =~= nv);
        assert(line_views(out@) =~= Seq::<Seq<char>>::empty());
        assert(Seq::<Seq<char>>::empty() + full.lines =~= full.lines);
    }
    while k < lexs.len()
        invariant
            0 <= k <= lexs@.len(),
            nv == node_views(lexs@),
            nv.len() == lexs@.len(),
            forall|i: int| 0 <= i < lexs@.len() ==> #[trigger] nv[i] == lexs@[i]@,
            full == spec_run(nv, functions@, variables@, fuel as nat),
            ({
                let o = spec_run(nv.skip(k as int), funs@, vars@, fuel as nat);
                full.lines == line_views(out@) + o.lines && full.err == o.err
            }),
        decreases lexs@.len() - k,
    {
        let ghost restk = nv.skip(k as int);
        let ghost restk1 = nv.skip(k + 1);
        proof {
            assert(restk.drop_first() =~= restk1);
            assert(restk[0] == nv[k as int]);
            assert(nv[k as int] == lexs@[k as int]@);
        }
        match &lexs[k] {
            LexType::Function(name, params, body) => {
                let name2 = clone_chars(name);
                let f = Function { args: clone_argdefs(params), scope: clone_nodes(body) };
                proof {
                    assert(f@ == FunctionM {
                        args: argdef_views(params@),
                        scope: node_views(body@),
                    });
                }
                funs.insert(name2, f);
            },
            LexType::Variable(name, _t, v) => {
                let name2 = clone_chars(name);
                vars.insert(name2, v.duplicate());
            },
            LexType::FunctionCall(name, args) => {
                let is_say = name.len() == 3 && name[0] == 's' && name[1] == 'a' && name[2] == 'y';
                proof {
                    if is_say {
                        assert(name@ =~= say_name());
                    } else {
                        if name@ == say_name() {
                            assert(name@[0] == 's' && name@[1] == 'a' && name@[2] == 'y');
                        }
                    }
                }
                if is_say {
                    if args.len() == 0 {
                        proof {
                            assert(value_views(args@).len() == 0);
                        }
                        return (out, Option::Some(RunError::SayArgMissing));
                    }
                    proof {
                        assert(value_views(args@)[0] == args@[0]@);
                    }
                    match &args[0] {
                        Value::Str(stext) => {
                            match interpolate(stext, &vars, fuel) {
                                Ok(line) => {
                                    let ghost oldout = out@;
                                    out.push(line);
                                    proof {
                                        assert(line_views(out@) =~= line_views(oldout) + seq![
                                            line@,
                                        ]);
                                        let o1 = spec_run(restk1, funs@, vars@, fuel as nat);
                                        assert(line_views(oldout) + (seq![line@] + o1.lines)
                                            =~= line_views(out@) + o1.lines);
                                    }
                                },
                                Err(e) => {
                                    return (out, Option::Some(e));
                                },
                            }
                        },
                        _ => {
                            return (out, Option::Some(RunError::SayNotString));
                        },
                    }
                } else {
                    if fuel == 0 {
                        match funs.get(name) {
                            Option::None => {
                                let name2 = clone_chars(name);
                                return (out, Option::Some(RunError::FunctionNotFound(name2)));
                            },
                            Option::Some(_) => {
                                return (out, Option::Some(RunError::OutOfFuel));
                            },
                        }
                    }
                    match funs.get(name) {
                        Option::None => {
                            let name2 = clone_chars(name);
                            return (out, Option::Some(RunError::FunctionNotFound(name2)));
                        },
                        Option::Some(f) => {
                            // Fresh bindings: parameters paired with arguments
                            // positionally, truncated to the shorter list.
                            let ghost pv = argdef_views(f.args@);
                            let ghost av = value_views(args@);
                            let n = if f.args.len() <= args.len() {
                                f.args.len()
                            } else {
                                args.len()
                            };
                            let mut bind = NameTable::<Value>::new();
                            let mut b: usize = 0;
                            while b < n
                                invariant
                                    0 <= b <= n,
                                    n <= f.args@.len(),
                                    n <= args@.len(),
                                    pv == argdef_views(f.args@),
                                    av == value_views(args@),
                                    pv.len() == f.args@.len(),
                                    av.len() == args@.len(),
                                    bind@ == bind_params_upto(pv, av, b as int),
                                decreases n - b,
                            {
                                proof {
                                    assert(pv[b as int] == f.args@[b as int]@);
                                    assert(av[b as int] == args@[b as int]@);
                                }
                                let bname = clone_chars(&f.args[b].name);
                                bind.insert(bname, args[b].duplicate());
                                b = b + 1;
                            }
                            proof {
                                assert(bind@ == bind_params(pv, av));
                            }
                            let funs2 = funs.duplicate();
                            let (sublines, suberr) = run(&f.scope, funs2, bind, fuel - 1);
                            let ghost oldout = out@;
                            let mut si: usize = 0;
                            while si < sublines.len()
                                invariant
                                    0 <= si <= sublines@.len(),
                                    line_views(out@) == line_views(oldout) + line_views(
                                        sublines@,
                                    ).take(si as int),
                                decreases sublines@.len() - si,
                            {
                                proof {
                                    assert(line_views(sublines@).take(si + 1) =~= line_views(
                                        sublines@,
                                    ).take(si as int).push(sublines@[si as int]@));
                                    assert(line_views(oldout) + line_views(sublines@).take(si + 1)
                                        =~= (line_views(oldout) + line_views(sublines@).take(
                                        si as int,
                                    )).push(sublines@[si as int]@));
                                }
                                let line = clone_chars(&sublines[si]);
                                let ghost outv = out@;
                                out.push(line);
                                proof {
                                    assert(line_views(out@) =~= line_views(outv).push(
                                        sublines@[si as int]@,
                                    ));
                                }
                                si = si + 1;
                            }
                            proof {
                                assert(line_views(sublines@).take(sublines@.len() as int)
                                    =~= line_views(sublines@));
                            }
                            proof {
                                let subspec = spec_run(
                                    f@.scope,
                                    funs@,
                                    bind_params(f@.args, value_views(args@)),
                                    (fuel - 1) as nat,
                                );
                                assert(line_views(sublines@) == subspec.lines);
                                assert(opt_err_view(suberr) == subspec.err);
                                assert(line_views(out@) =~= line_views(oldout) + subspec.lines);
                            }
                            match suberr {
                                Option::Some(e) => {
                                    proof {
                                        let subspec = spec_run(
                                            f@.scope,
                                            funs@,
                                            bind_params(f@.args, value_views(args@)),
                                            (fuel - 1) as nat,
                                        );
                                        assert(spec_run(restk, funs@, vars@, fuel as nat)
                                            == subspec);
                                        assert(full.lines =~= line_views(out@));
                                    }
                                    return (out, Option::Some(e));
                                },
                                Option::None => {
                                    proof {
                                        let subspec = spec_run(
                                            f@.scope,
                                            funs@,
                                            bind_params(f@.args, value_views(args@)),
                                            (fuel - 1) as nat,
                                        );
                                        let o1 = spec_run(restk1, funs@, vars@, fuel as nat);
                                        assert(spec_run(restk, funs@, vars@, fuel as nat)
                                            == RunOut {
                                            lines: subspec.lines + o1.lines,
                                            err: o1.err,
                                        });
                                        assert(line_views(oldout) + (subspec.lines + o1.lines)
                                            =~= line_views(out@) + o1.lines);
                                    }
                                },
                            }
                        },
                    }
                }
            },
        }
        k = k + 1;
    }
    proof {
        assert(nv.skip(lexs@.len() as int).len() == 0);
        assert(full.lines =~= line_views(out@));
    }
    (out, Option::None)
}

} // verus!
