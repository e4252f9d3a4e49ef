//! General properties of the evaluator's semantics, each proved against
//! `spec_run` and `spec_interpolate`.
use vstd::prelude::*;
use crate::ast::{ArgumentDefM, NodeM, Type, ValueM};
use crate::eval::{
    FunctionM, InterpOut, RunErrorM, RunOut, bind_params, bind_params_upto, say_name,
    spec_interpolate, spec_run,
};
use crate::literals::char_index;

verus! {

/// Re-declaring a variable overwrites silently: declaring a name twice and
/// then running any continuation is the same as declaring only the second
/// value. Only the most recent value is visible to later statements.
pub proof fn law_redeclare_last_wins(
    n: Seq<char>,
    t1: Type,
    v1: ValueM,
    t2: Type,
    v2: ValueM,
    rest: Seq<NodeM>,
    funs: Map<Seq<char>, FunctionM>,
    vars: Map<Seq<char>, ValueM>,
    fuel: nat,
)
    ensures
        spec_run(
            seq![NodeM::Variable(n, t1, v1), NodeM::Variable(n, t2, v2)] + rest,
            funs,
            vars,
            fuel,
        ) == spec_run(seq![NodeM::Variable(n, t2, v2)] + rest, funs, vars, fuel),
{
    let s2 = seq![NodeM::Variable(n, t2, v2)] + rest;
    let s1 = seq![NodeM::Variable(n, t1, v1), NodeM::Variable(n, t2, v2)] + rest;
    assert(s1.drop_first() =~= s2);
    assert(s2.drop_first() =~= rest);
    assert(spec_run(s1, funs, vars, fuel) == spec_run(s2, funs, vars.insert(n, v1), fuel));
    assert(spec_run(s2, funs, vars.insert(n, v1), fuel) == spec_run(
        rest,
        funs,
        vars.insert(n, v1).insert(n, v2),
        fuel,
    ));
    assert(vars.insert(n, v1).insert(n, v2) =~= vars.insert(n, v2));
    assert(spec_run(s2, funs, vars, fuel) == spec_run(rest, funs, vars.insert(n, v2), fuel));
}

/// Scope isolation, caller to callee: what a call to a declared function
/// does is independent of the caller's variable table, because the callee
/// starts from a fresh table holding only its bound parameters.
pub proof fn law_callee_blind_to_caller_vars(
    name: Seq<char>,
    args: Seq<ValueM>,
    funs: Map<Seq<char>, FunctionM>,
    vars1: Map<Seq<char>, ValueM>,
    vars2: Map<Seq<char>, ValueM>,
    fuel: nat,
)
    requires
        name != say_name(),
    ensures
        spec_run(seq![NodeM::FunctionCall(name, args)], funs, vars1, fuel) == spec_run(
            seq![NodeM::FunctionCall(name, args)],
            funs,
            vars2,
            fuel,
        ),
{
    let prog = seq![NodeM::FunctionCall(name, args)];
    assert(prog.drop_first() =~= Seq::<NodeM>::empty());
    assert(prog[0] == NodeM::FunctionCall(name, args));
    if funs.contains_key(name) && fuel > 0 {
        let f = funs[name];
        let sub = spec_run(f.scope, funs, bind_params(f.args, args), (fuel - 1) as nat);
        assert(spec_run(Seq::<NodeM>::empty(), funs, vars1, fuel) == spec_run(
            Seq::<NodeM>::empty(),
            funs,
            vars2,
            fuel,
        ));
    }
}

/// Scope isolation, callee to caller: after a call that completes without a
/// fault, the continuation runs with the caller's own tables unchanged. A
/// variable or function declared inside the body is not visible afterwards.
pub proof fn law_call_leaves_caller_tables(
    name: Seq<char>,
    args: Seq<ValueM>,
    rest: Seq<NodeM>,
    funs: Map<Seq<char>, FunctionM>,
    vars: Map<Seq<char>, ValueM>,
    fuel: nat,
)
    requires
        name != say_name(),
        funs.contains_key(name),
        fuel > 0,
        (spec_run(
            funs[name].scope,
            funs,
            bind_params(funs[name].args, args),
            (fuel - 1) as nat,
        ).err is None),
    ensures
        ({
            let sub = spec_run(
                funs[name].scope,
                funs,
                bind_params(funs[name].args, args),
                (fuel - 1) as nat,
            );
            let cont = spec_run(rest, funs, vars, fuel);
            spec_run(seq![NodeM::FunctionCall(name, args)] + rest, funs, vars, fuel) == RunOut {
                lines: sub.lines + cont.lines,
                err: cont.err,
            }
        }),
{
    let prog = seq![NodeM::FunctionCall(name, args)] + rest;
    assert(prog.drop_first() =~= rest);
}

/// Function visibility, declared first: declaring a function and then
/// calling it runs the body under the parameter bindings, with the
/// declaration itself in scope.
pub proof fn law_declared_then_called(
    name: Seq<char>,
    params: Seq<ArgumentDefM>,
    body: Seq<NodeM>,
    args: Seq<ValueM>,
    funs: Map<Seq<char>, FunctionM>,
    vars: Map<Seq<char>, ValueM>,
    fuel: nat,
)
    requires
        name != say_name(),
        fuel > 0,
    ensures
        ({
            let funs2 = funs.insert(name, FunctionM { args: params, scope: body });
            let sub = spec_run(body, funs2, bind_params(params, args), (fuel - 1) as nat);
            spec_run(
                seq![NodeM::Function(name, params, body), NodeM::FunctionCall(name, args)],
                funs,
                vars,
                fuel,
            ) == sub
        }),
{
    let prog = seq![NodeM::Function(name, params, body), NodeM::FunctionCall(name, args)];
    let call = seq![NodeM::FunctionCall(name, args)];
    let funs2 = funs.insert(name, FunctionM { args: params, scope: body });
    assert(prog.drop_first() =~= call);
    assert(call.drop_first() =~= Seq::<NodeM>::empty());
    assert(spec_run(prog, funs, vars, fuel) == spec_run(call, funs2, vars, fuel));
    let sub = spec_run(body, funs2, bind_params(params, args), (fuel - 1) as nat);
    if sub.err is None {
        let empty_run = spec_run(Seq::<NodeM>::empty(), funs2, vars, fuel);
        assert(empty_run.lines =~= Seq::<Seq<char>>::empty());
        assert(sub.lines + empty_run.lines =~= sub.lines);
    }
}

/// Function visibility, called first: calling a function before any
/// declaration of it aborts the run at once with a function-not-found
/// fault; no further statement executes and no line is printed.
pub proof fn law_call_before_declaration_fails(
    name: Seq<char>,
    args: Seq<ValueM>,
    rest: Seq<NodeM>,
    funs: Map<Seq<char>, FunctionM>,
    vars: Map<Seq<char>, ValueM>,
    fuel: nat,
)
    requires
        name != say_name(),
        !funs.contains_key(name),
    ensures
        spec_run(seq![NodeM::FunctionCall(name, args)] + rest, funs, vars, fuel) == (RunOut {
            lines: Seq::empty(),
            err: Option::Some(RunErrorM::FunctionNotFound(name)),
        }),
{
    let prog = seq![NodeM::FunctionCall(name, args)] + rest;
    assert(prog[0] == NodeM::FunctionCall(name, args));
}

proof fn lemma_bind_upto_dom(params: Seq<ArgumentDefM>, args: Seq<ValueM>, n: int)
    requires
        0 <= n <= params.len(),
        n <= args.len(),
    ensures
        forall|k: Seq<char>|
            #[trigger] bind_params_upto(params, args, n).contains_key(k) <==> exists|i: int|
                0 <= i < n && params[i].name == k,
    decreases n,
{
    if n > 0 {
        lemma_bind_upto_dom(params, args, n - 1);
        assert forall|k: Seq<char>|
            #[trigger] bind_params_upto(params, args, n).contains_key(k) implies exists|i: int|
            0 <= i < n && params[i].name == k by {
            if k == params[n - 1].name {
                assert(0 <= n - 1 < n && params[n - 1].name == k);
            } else {
                assert(bind_params_upto(params, args, n - 1).contains_key(k));
                let i = choose|i: int| 0 <= i < n - 1 && params[i].name == k;
                assert(0 <= i < n && params[i].name == k);
            }
        }
        assert forall|k: Seq<char>|
            (exists|i: int| 0 <= i < n && params[i].name == k) implies #[trigger] bind_params_upto(
            params,
            args,
            n,
        ).contains_key(k) by {
            let i = choose|i: int| 0 <= i < n && params[i].name == k;
            if i < n - 1 {
                assert(bind_params_upto(params, args, n - 1).contains_key(k));
            }
        }
    }
}

/// Argument truncation: a call binds parameters to arguments positionally,
/// truncating to the shorter list. The callee's fresh table binds exactly
/// the names of the supplied parameter prefix; parameters past the argument
/// count are left unbound.
pub proof fn law_binding_truncates(params: Seq<ArgumentDefM>, args: Seq<ValueM>)
    ensures
        ({
            let m = if params.len() <= args.len() {
                params.len() as int
            } else {
                args.len() as int
            };
            forall|k: Seq<char>|
                #[trigger] bind_params(params, args).contains_key(k) <==> exists|i: int|
                    0 <= i < m && params[i].name == k
        }),
{
    let m = if params.len() <= args.len() {
        params.len() as int
    } else {
        args.len() as int
    };
    lemma_bind_upto_dom(params, args, m);
}

/// Looking an unbound name up during interpolation is a fatal fault: when
/// the first open and close markers name a variable with no binding, the
/// whole interpolation fails with that name.
pub proof fn law_unbound_name_is_fatal(s: Seq<char>, vars: Map<Seq<char>, ValueM>, fuel: nat)
    requires
        char_index(s, '@') < s.len(),
        char_index(s, '*') < s.len(),
        char_index(s, '@') + 1 <= char_index(s, '*'),
        fuel > 0,
        !vars.contains_key(s.subrange(char_index(s, '@') + 1, char_index(s, '*'))),
    ensures
        spec_interpolate(s, vars, fuel) == InterpOut::Fail(
            RunErrorM::VariableNotFound(s.subrange(char_index(s, '@') + 1, char_index(s, '*'))),
        ),
{
}

} // verus!
