use vstd::prelude::*;

use crate::constant::{Constant, constant_spec};
use crate::error::GraphError;
use crate::graph::{Graph, lemma_extends_refl, lemma_extends_trans};
use crate::node::{BinaryOp, UnaryOp};
use crate::splice::{input_terms, spliced};
use crate::term::{Term, divides_by_zero, simp_binary, simp_unary};

verus! {

/// Relies on `String::push_str`, which appends `string` to `s`.
pub assume_specification[ String::push_str ](s: &mut String, string: &str)
    ensures
        final(s)@ == old(s)@ + string@,
;

/// An expression of a function body.
#[derive(Debug)]
pub enum Expr {
    Binary(BinaryOp, Box<Expr>, Box<Expr>),
    Unary(UnaryOp, Box<Expr>),
    Constant(Constant),
    /// A local, an argument, or a field of an argument (`p.mu`).
    Name(String),
    /// A call of another function of the model, by name.
    Call(String, Vec<Expr>),
}

/// A statement of a function body.
#[derive(Debug)]
pub enum Statement {
    /// `let name = expr;`
    Let(String, Expr),
    /// The value of the function.
    Value(Expr),
}

/// The layout of a record type: each field is a scalar (`None`) or a
/// record of the type at the given position of the model's records.
#[derive(Debug)]
pub struct VariableGraph {
    pub name: String,
    pub subgraphs: Vec<(String, Option<usize>)>,
}

/// An argument of a function: a scalar, or a record whose scalar fields
/// become variables named `argument.field.subfield`.
#[derive(Debug)]
pub struct Argument {
    pub name: String,
    pub record: Option<usize>,
    /// Whether the variables are parameters rather than data.
    pub parameter: bool,
}

/// A function of a model, before it is compiled into a graph.
#[derive(Debug)]
pub struct Function {
    pub name: String,
    pub arguments: Vec<Argument>,
    pub body: Vec<Statement>,
}

/// The record types and functions of a model.
#[derive(Debug)]
pub struct Model {
    pub structs: Vec<VariableGraph>,
    pub functions: Vec<Function>,
}

impl Model {
    /// Every record refers only to records listed before it, and every
    /// argument to a listed record.
    pub open spec fn wf(self) -> bool {
        &&& forall|i: int, k: int|
            0 <= i < self.structs@.len() && 0 <= k < self.structs@[i].subgraphs@.len()
                && #[trigger] self.structs@[i].subgraphs@[k].1 is Some
                ==> self.structs@[i].subgraphs@[k].1->Some_0 < i
        &&& forall|f: int, a: int|
            0 <= f < self.functions@.len() && 0 <= a < self.functions@[f].arguments@.len()
                && #[trigger] self.functions@[f].arguments@[a].record is Some
                ==> self.functions@[f].arguments@[a].record->Some_0 < self.structs@.len()
    }

    /// The position of the first function named `name`.
    pub fn find_function(&self, name: &String) -> (r: Option<usize>)
        ensures
            r matches Some(j) ==> named_from(self.functions@, name@, 0) == Some(j as int),
            r is None ==> named_from(self.functions@, name@, 0) is None,
            match r {
                Some(j) => j < self.functions@.len() && self.functions@[j as int].name@ == name@,
                None => forall|j: int|
                    0 <= j < self.functions@.len() ==> #[trigger] self.functions@[j].name@ != name@,
            },
    {
        let mut j: usize = 0;
        while j < self.functions.len()
            invariant
                j <= self.functions@.len(),
                forall|k: int| 0 <= k < j ==> #[trigger] self.functions@[k].name@ != name@,
                named_from(self.functions@, name@, 0) == named_from(self.functions@, name@, j as int),
            decreases self.functions@.len() - j,
        {
            if self.functions[j].name == *name {
                return Some(j);
            }
            j = j + 1;
        }
        None
    }
}

/// The position of the first function named `name` at or after `i`.
pub open spec fn named_from(fs: Seq<Function>, name: Seq<char>, i: int) -> Option<int>
    decreases fs.len() - i,
{
    if i < 0 || i >= fs.len() {
        None
    } else if fs[i].name@ == name {
        Some(i)
    } else {
        named_from(fs, name, i + 1)
    }
}

/// A compiled function: its graph, and its argument and result nodes there.
pub struct Compiled {
    pub graph: Graph,
    pub function: crate::splice::Function,
}

impl Compiled {
    pub open spec fn wf(self) -> bool {
        &&& self.graph.wf()
        &&& self.graph.holds(self.function.result as int)
        &&& forall|i: int|
            0 <= i < self.function.arguments@.len() ==> self.graph.holds(
                #[trigger] self.function.arguments@[i] as int,
            )
    }
}

/// The compiled graphs of a model's functions, filled lazily: a function is
/// compiled the first time it is needed, and at most once.
pub struct Registry {
    started: Vec<bool>,
    compiled: Vec<Option<Compiled>>,
    /// The order in which functions were compiled.
    ranks: Ghost<Seq<nat>>,
    /// The number of functions compiled so far.
    count: Ghost<nat>,
}

/// Whether `b` keeps every compiled function of `a`.
pub open spec fn keeps(a: Registry, b: Registry) -> bool {
    &&& a.started().len() == b.started().len()
    &&& a.compiled().len() == b.compiled().len()
    &&& forall|j: int|
        0 <= j < a.compiled().len() && #[trigger] a.compiled()[j] is Some ==> b.compiled()[j]
            == a.compiled()[j]
    &&& forall|j: int| 0 <= j < a.started().len() && #[trigger] a.started()[j] ==> b.started()[j]
    &&& forall|j: int|
        0 <= j < a.started().len() && a.started()[j] && #[trigger] a.compiled()[j] is None
            ==> b.compiled()[j] is None
}

/// The number of functions whose compilation has not started.
pub open spec fn unstarted(s: Seq<bool>, n: int) -> nat
    decreases n,
{
    if n <= 0 {
        0
    } else {
        unstarted(s, n - 1) + if s[n - 1] {
            0nat
        } else {
            1nat
        }
    }
}

pub proof fn lemma_unstarted_mark(s: Seq<bool>, j: int, n: int)
    requires
        0 <= j < n <= s.len(),
        !s[j],
    ensures
        unstarted(s.update(j, true), n) + 1 == unstarted(s, n),
    decreases n,
{
    if n - 1 > j {
        lemma_unstarted_mark(s, j, n - 1);
    } else {
        lemma_unstarted_same(s, s.update(j, true), j);
    }
}

pub proof fn lemma_unstarted_same(s: Seq<bool>, t: Seq<bool>, n: int)
    requires
        0 <= n <= s.len(),
        n <= t.len(),
        forall|i: int| 0 <= i < n ==> s[i] == t[i],
    ensures
        unstarted(s, n) == unstarted(t, n),
    decreases n,
{
    if n > 0 {
        lemma_unstarted_same(s, t, n - 1);
    }
}

proof fn lemma_unstarted_keeps(a: Seq<bool>, b: Seq<bool>, n: int)
    requires
        0 <= n <= a.len(),
        a.len() == b.len(),
        forall|i: int| 0 <= i < a.len() && #[trigger] a[i] ==> b[i],
    ensures
        unstarted(b, n) <= unstarted(a, n),
    decreases n,
{
    if n > 0 {
        lemma_unstarted_keeps(a, b, n - 1);
    }
}

impl Registry {
    pub closed spec fn started(self) -> Seq<bool> {
        self.started@
    }

    pub closed spec fn compiled(self) -> Seq<Option<Compiled>> {
        self.compiled@
    }

    pub open spec fn wf(self, model: Model) -> bool {
        &&& self.started().len() == model.functions@.len()
        &&& self.compiled().len() == model.functions@.len()
        &&& forall|j: int|
            0 <= j < self.compiled().len() && #[trigger] self.compiled()[j] is Some ==> self.started()[j]
                && self.compiled()[j]->Some_0.wf() && self.compiled()[j]->Some_0.function.name@
                == model.functions@[j].name@ && compiled_from(
                self.compiled()[j]->Some_0,
                model,
                j,
                self.compiled(),
                self.started(),
            )
        &&& self.ranked(model)
    }

    /// Whether each compiled function calls only functions compiled before it.
    pub closed spec fn ranked(self, model: Model) -> bool {
        &&& self.ranks@.len() == self.compiled@.len()
        &&& forall|k: int|
            0 <= k < self.compiled@.len() && #[trigger] self.compiled@[k] is Some ==> self.ranks@[k] < self.count@
        &&& forall|k: int, b: int|
            0 <= k < self.compiled@.len() && self.compiled@[k] is Some && #[trigger] calls(model, k, b)
                ==> 0 <= b < self.compiled@.len() && self.compiled@[b] is Some && self.ranks@[b] < self.ranks@[k]
    }

    /// Along a chain of calls from a compiled function, every function is
    /// compiled, each before the one that calls it.
    proof fn lemma_path_ranked(self, model: Model, p: Seq<int>, i: int)
        requires
            self.ranked(model),
            call_path(model, p),
            0 <= i < p.len(),
            0 <= p[0] < self.compiled@.len(),
            self.compiled@[p[0]] is Some,
        ensures
            0 <= p[i] < self.compiled@.len(),
            self.compiled@[p[i]] is Some,
            i > 0 ==> self.ranks@[p[i]] < self.ranks@[p[0]],
        decreases i,
    {
        if i > 0 {
            self.lemma_path_ranked(model, p, i - 1);
            assert(calls(model, p[i - 1], p[(i - 1) + 1]));
        }
    }

    /// A registry in which nothing is compiled yet.
    pub fn new(model: &Model) -> (r: Registry)
        ensures
            r.wf(*model),
            forall|j: int| 0 <= j < r.started().len() ==> !(#[trigger] r.started()[j]),
    {
        let mut started: Vec<bool> = Vec::new();
        let mut compiled: Vec<Option<Compiled>> = Vec::new();
        let mut j: usize = 0;
        while j < model.functions.len()
            invariant
                j <= model.functions@.len(),
                started@.len() == j,
                compiled@.len() == j,
                forall|k: int| 0 <= k < j ==> !(#[trigger] started@[k]),
                forall|k: int| 0 <= k < j ==> #[trigger] compiled@[k] is None,
            decreases model.functions@.len() - j,
        {
            started.push(false);
            compiled.push(None);
            j = j + 1;
        }
        Registry { started, compiled, ranks: Ghost(Seq::new(model.functions@.len(), |i: int| 0nat)), count: Ghost(0) }
    }

    /// The compiled function at `j`, if it is compiled.
    pub fn get(&self, j: usize) -> (r: Option<&Compiled>)
        requires
            j < self.compiled().len(),
        ensures
            match r {
                Some(c) => self.compiled()[j as int] == Some(*c),
                None => self.compiled()[j as int] is None,
            },
    {
        match &self.compiled[j] {
            Some(c) => Some(c),
            None => None,
        }
    }
}

/// The last binding of `name`, if any.
pub open spec fn lookup(bindings: Seq<(String, usize)>, name: Seq<char>, n: int) -> Option<usize>
    decreases n,
{
    if n <= 0 {
        None
    } else if bindings[n - 1].0@ == name {
        Some(bindings[n - 1].1)
    } else {
        lookup(bindings, name, n - 1)
    }
}

/// What calling compiled function `c` on arguments standing for `ts` yields.
pub open spec fn call_term(c: Compiled, ts: Seq<Term>) -> Result<Term, GraphError> {
    if ts.len() != c.function.arguments@.len() {
        Err(GraphError::ArityMismatch)
    } else {
        spliced(c.graph.store(), c.function.result as int, c.function.arguments@, ts)
    }
}

/// Whether `e` calls function `b`.
pub open spec fn expr_calls(e: Expr, model: Model, b: int) -> bool
    decreases e, 0int,
{
    match e {
        Expr::Binary(_, l, r) => expr_calls(*l, model, b) || expr_calls(*r, model, b),
        Expr::Unary(_, a) => expr_calls(*a, model, b),
        Expr::Call(name, args) => named_from(model.functions@, name@, 0) == Some(b) || args_call(
            args,
            args@.len() as int,
            model,
            b,
        ),
        _ => false,
    }
}

/// Whether one of the first `n` call arguments calls function `b`.
pub open spec fn args_call(args: Vec<Expr>, n: int, model: Model, b: int) -> bool
    decreases args, n,
{
    if n <= 0 || n > args@.len() {
        false
    } else {
        args_call(args, n - 1, model, b) || expr_calls(args@[n - 1], model, b)
    }
}

/// The expression of a statement.
pub open spec fn statement_expr(s: Statement) -> Expr {
    match s {
        Statement::Let(_, e) => e,
        Statement::Value(e) => e,
    }
}

/// Whether the body of function `a` calls function `b`.
pub open spec fn calls(model: Model, a: int, b: int) -> bool {
    &&& 0 <= a < model.functions@.len()
    &&& exists|i: int|
        0 <= i < model.functions@[a].body@.len() && #[trigger] expr_calls(
            statement_expr(model.functions@[a].body@[i]),
            model,
            b,
        )
}

/// Whether `p` is a chain of calls: each function in it calls the next.
pub open spec fn call_path(model: Model, p: Seq<int>) -> bool {
    forall|i: int| 0 <= i < p.len() - 1 ==> #[trigger] calls(model, p[i], p[i + 1])
}

/// Whether function `j` reaches itself through calls, directly or through
/// other functions.
pub open spec fn cyclic(model: Model, j: int) -> bool {
    exists|p: Seq<int>| p.len() >= 2 && p[0] == j && p.last() == j && #[trigger] call_path(model, p)
}

proof fn lemma_expr_calls_compiled(
    e: Expr,
    env: Seq<(Seq<char>, Term)>,
    model: Model,
    reg: Seq<Option<Compiled>>,
    st: Seq<bool>,
    b: int,
)
    requires
        expr_term(e, env, model, reg, st) is Ok,
        expr_calls(e, model, b),
    ensures
        0 <= b < reg.len() && reg[b] is Some,
    decreases e, 0int,
{
    match e {
        Expr::Binary(_, l, r) => {
            if expr_calls(*l, model, b) {
                lemma_expr_calls_compiled(*l, env, model, reg, st, b);
            } else {
                lemma_expr_calls_compiled(*r, env, model, reg, st, b);
            }
        },
        Expr::Unary(_, a) => {
            lemma_expr_calls_compiled(*a, env, model, reg, st, b);
        },
        Expr::Call(name, args) => {
            assert(expr_term(e, env, model, reg, st) == call_value(name, args, env, model, reg, st));
            let found = named_from(model.functions@, name@, 0);
            assert(found is Some);
            let j = found->Some_0;
            if !(0 <= j < reg.len() && reg[j] is Some) {
                assert(call_value(name, args, env, model, reg, st) is Err);
            }
            assert(args_terms(args, args@.len() as int, env, model, reg, st) is Ok);
            if found != Some(b) {
                lemma_args_calls_compiled(args, args@.len() as int, env, model, reg, st, b);
            }
        },
        _ => {},
    }
}

proof fn lemma_args_calls_compiled(
    args: Vec<Expr>,
    n: int,
    env: Seq<(Seq<char>, Term)>,
    model: Model,
    reg: Seq<Option<Compiled>>,
    st: Seq<bool>,
    b: int,
)
    requires
        args_terms(args, n, env, model, reg, st) is Ok,
        args_call(args, n, model, b),
    ensures
        0 <= b < reg.len() && reg[b] is Some,
    decreases args, n,
{
    if args_call(args, n - 1, model, b) {
        lemma_args_calls_compiled(args, n - 1, env, model, reg, st, b);
    } else {
        lemma_expr_calls_compiled(args@[n - 1], env, model, reg, st, b);
    }
}

proof fn lemma_run_body_statement_ok(
    body: Seq<Statement>,
    n: int,
    env: Seq<(Seq<char>, Term)>,
    model: Model,
    reg: Seq<Option<Compiled>>,
    st: Seq<bool>,
    i: int,
)
    requires
        0 <= i < n <= body.len(),
        run_body(body, n, env, model, reg, st) is Ok,
    ensures
        run_body(body, i, env, model, reg, st) is Ok,
        expr_term(statement_expr(body[i]), run_body(body, i, env, model, reg, st)->Ok_0.0, model, reg, st) is Ok,
    decreases n,
{
    if i < n - 1 {
        lemma_run_body_statement_ok(body, n - 1, env, model, reg, st, i);
    }
}

/// A function that compiles calls only functions compiled in `reg`.
proof fn lemma_function_calls_compiled(model: Model, j: int, reg: Seq<Option<Compiled>>, st: Seq<bool>, b: int)
    requires
        function_value(model, j, reg, st) is Ok,
        calls(model, j, b),
    ensures
        0 <= b < reg.len() && reg[b] is Some,
{
    let def = model.functions@[j];
    let env0 = arguments_env(model, def.arguments@, def.arguments@.len() as int);
    let i = choose|i: int| 0 <= i < def.body@.len() && #[trigger] expr_calls(statement_expr(def.body@[i]), model, b);
    lemma_run_body_statement_ok(def.body@, def.body@.len() as int, env0, model, reg, st, i);
    lemma_expr_calls_compiled(
        statement_expr(def.body@[i]),
        run_body(def.body@, i, env0, model, reg, st)->Ok_0.0,
        model,
        reg,
        st,
        b,
    );
}

/// The number of functions whose compilation has not started, as a measure.
pub open spec fn pending(st: Seq<bool>) -> nat {
    unstarted(st, st.len() as int)
}

/// The term that `e` builds, where each name stands for the term of its
/// last binding in `env`. A called function is taken from `reg` when it is
/// compiled there; otherwise its compilation is started (`st` marks the
/// functions whose compilation has started) and its error is the call's.
pub open spec fn expr_term(
    e: Expr,
    env: Seq<(Seq<char>, Term)>,
    model: Model,
    reg: Seq<Option<Compiled>>,
    st: Seq<bool>,
) -> Result<Term, GraphError>
    decreases pending(st), 2int, e, 0int,
{
    match e {
        Expr::Binary(op, l, r) => match expr_term(*l, env, model, reg, st) {
            Ok(a) => match expr_term(*r, env, model, reg, st) {
                Ok(b) => if divides_by_zero(op, a, b) {
                    Err(GraphError::DivisionByZero)
                } else {
                    Ok(simp_binary(op, a, b))
                },
                Err(x) => Err(x),
            },
            Err(x) => Err(x),
        },
        Expr::Unary(op, a) => match expr_term(*a, env, model, reg, st) {
            Ok(t) => Ok(simp_unary(op, t)),
            Err(x) => Err(x),
        },
        Expr::Constant(c) => match constant_spec(c.mantissa, c.scale) {
            Ok(k) => Ok(Term::Const(k)),
            Err(x) => Err(x),
        },
        Expr::Name(n) => match lookup_env(env, n@, env.len() as int) {
            Some(t) => Ok(t),
            None => Err(GraphError::UndefinedReference),
        },
        Expr::Call(name, args) => call_value(name, args, env, model, reg, st),
    }
}

/// The term that calling the function named `name` on `args` builds: the
/// callee is compiled first, then the arguments are built left to right,
/// then the callee's graph is spliced.
pub open spec fn call_value(
    name: String,
    args: Vec<Expr>,
    env: Seq<(Seq<char>, Term)>,
    model: Model,
    reg: Seq<Option<Compiled>>,
    st: Seq<bool>,
) -> Result<Term, GraphError>
    decreases pending(st), 2int, args, args@.len() + 1,
{
    match named_from(model.functions@, name@, 0) {
        None => Err(GraphError::UndefinedReference),
        Some(j) => if 0 <= j < reg.len() && reg[j] is Some {
            match args_terms(args, args@.len() as int, env, model, reg, st) {
                Ok(ts) => call_term(reg[j]->Some_0, ts),
                Err(x) => Err(x),
            }
        } else if 0 <= j < st.len() && !st[j] {
            proof {
                lemma_unstarted_mark(st, j, st.len() as int);
            }
            match function_value(model, j, reg, st.update(j, true)) {
                Err(x) => Err(x),
                Ok(_) => Err(GraphError::RecursiveDefinition),
            }
        } else {
            Err(GraphError::RecursiveDefinition)
        },
    }
}

/// The terms of the first `n` call arguments, left to right.
pub open spec fn args_terms(
    args: Vec<Expr>,
    n: int,
    env: Seq<(Seq<char>, Term)>,
    model: Model,
    reg: Seq<Option<Compiled>>,
    st: Seq<bool>,
) -> Result<Seq<Term>, GraphError>
    decreases pending(st), 2int, args, n,
{
    if n <= 0 || n > args@.len() {
        Ok(Seq::empty())
    } else {
        match args_terms(args, n - 1, env, model, reg, st) {
            Ok(ts) => match expr_term(args@[n - 1], env, model, reg, st) {
                Ok(t) => Ok(ts.push(t)),
                Err(x) => Err(x),
            },
            Err(x) => Err(x),
        }
    }
}

/// Running the first `n` statements of a body from the bindings `env`: the
/// bindings after them and the last value given, or the first error.
pub open spec fn run_body(
    body: Seq<Statement>,
    n: int,
    env: Seq<(Seq<char>, Term)>,
    model: Model,
    reg: Seq<Option<Compiled>>,
    st: Seq<bool>,
) -> Result<(Seq<(Seq<char>, Term)>, Option<Term>), GraphError>
    decreases pending(st), 3int, model, n,
{
    if n <= 0 || n > body.len() {
        Ok((env, None))
    } else {
        match run_body(body, n - 1, env, model, reg, st) {
            Err(x) => Err(x),
            Ok(state) => match body[n - 1] {
                Statement::Let(name, e) => match expr_term(e, state.0, model, reg, st) {
                    Ok(t) => Ok((state.0.push((name@, t)), state.1)),
                    Err(x) => Err(x),
                },
                Statement::Value(e) => match expr_term(e, state.0, model, reg, st) {
                    Ok(t) => Ok((state.0, Some(t))),
                    Err(x) => Err(x),
                },
            },
        }
    }
}

/// The term that compiling function `j` gives its result, or the error.
pub open spec fn function_value(model: Model, j: int, reg: Seq<Option<Compiled>>, st: Seq<bool>) -> Result<
    Term,
    GraphError,
>
    decreases pending(st), 4int, model, 0int,
{
    if 0 <= j < model.functions@.len() {
        let def = model.functions@[j];
        match run_body(
            def.body@,
            def.body@.len() as int,
            arguments_env(model, def.arguments@, def.arguments@.len() as int),
            model,
            reg,
            st,
        ) {
            Ok(state) => match state.1 {
                Some(t) => Ok(t),
                None => Err(GraphError::MissingResult),
            },
            Err(x) => Err(x),
        }
    } else {
        Err(GraphError::UndefinedReference)
    }
}

/// Whether `c` is what compiling function `j` gives, its calls resolved in `reg`.
pub open spec fn compiled_from(c: Compiled, model: Model, j: int, reg: Seq<Option<Compiled>>, st: Seq<bool>) -> bool {
    let def = model.functions@[j];
    &&& function_value(model, j, reg, st) == Ok::<Term, GraphError>(c.graph.term_of(c.function.result as int))
    &&& terms_of(c.graph, c.function.arguments@) == env_terms(
        arguments_env(model, def.arguments@, def.arguments@.len() as int),
    )
}

/// Whether every binding names a node of `g`.
pub open spec fn bound_in(g: Graph, bindings: Seq<(String, usize)>) -> bool {
    forall|i: int| 0 <= i < bindings.len() ==> g.holds(#[trigger] bindings[i].1 as int)
}

proof fn lemma_bound_extends(g1: Graph, g2: Graph, bindings: Seq<(String, usize)>)
    requires
        g1.extended_by(g2),
        bound_in(g1, bindings),
    ensures
        bound_in(g2, bindings),
{
    assert forall|i: int| 0 <= i < bindings.len() implies g2.holds(#[trigger] bindings[i].1 as int) by {
        assert(g1.holds(bindings[i].1 as int));
    }
}

proof fn lemma_lookup_bound(g: Graph, bindings: Seq<(String, usize)>, name: Seq<char>, n: int)
    requires
        bound_in(g, bindings),
        n <= bindings.len(),
    ensures
        lookup(bindings, name, n) matches Some(h) ==> g.holds(h as int),
    decreases n,
{
    if n > 0 && bindings[n - 1].0@ != name {
        lemma_lookup_bound(g, bindings, name, n - 1);
    }
}

/// The node bound to `name` last.
fn find_binding(bindings: &Vec<(String, usize)>, name: &String) -> (r: Option<usize>)
    ensures
        r == lookup(bindings@, name@, bindings@.len() as int),
{
    let mut n: usize = bindings.len();
    while n > 0
        invariant
            n <= bindings@.len(),
            lookup(bindings@, name@, bindings@.len() as int) == lookup(bindings@, name@, n as int),
        decreases n,
    {
        if bindings[n - 1].0 == *name {
            return Some(bindings[n - 1].1);
        }
        n = n - 1;
    }
    None
}

/// The variables an argument binds, with their terms: a scalar binds
/// `prefix`; a record binds each scalar field as `prefix.field`, recursively.
pub open spec fn flatten(model: Model, prefix: Seq<char>, record: Option<usize>, parameter: bool) -> Seq<
    (Seq<char>, Term),
>
    decreases (match record {
        Some(j) => j + 1,
        None => 0,
    }), 1int, 0int,
{
    match record {
        None => seq![(prefix, Term::Var(prefix, parameter))],
        Some(j) => if j < model.structs@.len() {
            flatten_fields(model, prefix, j as int, model.structs@[j as int].subgraphs@.len() as int, parameter)
        } else {
            Seq::empty()
        },
    }
}

/// The variables that the first `k` fields of record `j` bind.
pub open spec fn flatten_fields(model: Model, prefix: Seq<char>, j: int, k: int, parameter: bool) -> Seq<
    (Seq<char>, Term),
>
    decreases j + 1, 0int, k,
{
    if k <= 0 || j < 0 || j >= model.structs@.len() || k > model.structs@[j].subgraphs@.len() {
        Seq::empty()
    } else {
        let field = model.structs@[j].subgraphs@[k - 1];
        let rest = flatten_fields(model, prefix, j, k - 1, parameter);
        let name = prefix + "."@ + field.0@;
        match field.1 {
            Some(x) => if x < j {
                rest + flatten(model, name, field.1, parameter)
            } else {
                rest
            },
            None => rest + flatten(model, name, field.1, parameter),
        }
    }
}

/// The terms of a list of nodes of `g`.
pub open spec fn terms_of(g: Graph, hs: Seq<usize>) -> Seq<Term> {
    hs.map_values(|h: usize| g.term_of(h as int))
}

/// The terms of a list of bindings.
pub open spec fn env_terms(env: Seq<(Seq<char>, Term)>) -> Seq<Term> {
    env.map_values(|p: (Seq<char>, Term)| p.1)
}

proof fn lemma_terms_of_stable(g0: Graph, g1: Graph, hs: Seq<usize>)
    requires
        g0.extended_by(g1),
        forall|i: int| 0 <= i < hs.len() ==> g0.holds(#[trigger] hs[i] as int),
    ensures
        terms_of(g1, hs) == terms_of(g0, hs),
{
    assert forall|i: int| 0 <= i < hs.len() implies terms_of(g1, hs)[i] == terms_of(g0, hs)[i] by {
        assert(g0.holds(hs[i] as int));
        assert(g1.term_of(hs[i] as int) == g0.term_of(hs[i] as int));
    }
    assert(terms_of(g1, hs) =~= terms_of(g0, hs));
}

/// The bindings that the first `n` arguments of a function make.
pub open spec fn arguments_env(model: Model, args: Seq<Argument>, n: int) -> Seq<(Seq<char>, Term)>
    decreases n,
{
    if n <= 0 || n > args.len() {
        Seq::empty()
    } else {
        arguments_env(model, args, n - 1) + flatten(
            model,
            args[n - 1].name@,
            args[n - 1].record,
            args[n - 1].parameter,
        )
    }
}

/// The term of an optional node of `g`.
pub open spec fn value_term(g: Graph, value: Option<usize>) -> Option<Term> {
    match value {
        Some(v) => Some(g.term_of(v as int)),
        None => None,
    }
}

proof fn lemma_value_term_stable(g0: Graph, g1: Graph, value: Option<usize>)
    requires
        g0.extended_by(g1),
        value matches Some(v) ==> g0.holds(v as int),
    ensures
        value_term(g1, value) == value_term(g0, value),
{
    if let Some(v) = value {
        assert(g1.term_of(v as int) == g0.term_of(v as int));
    }
}

/// Binds the variables of an argument: a scalar argument is one variable
/// named `prefix`; a record argument binds each scalar field, named
/// `prefix.field`, recursively.
fn initialize(
    graph: &mut Graph,
    bindings: &mut Vec<(String, usize)>,
    arguments: &mut Vec<usize>,
    prefix: String,
    record: Option<usize>,
    parameter: bool,
    model: &Model,
)
    requires
        old(graph).wf(),
        model.wf(),
        record matches Some(j) ==> j < model.structs@.len(),
        bound_in(*old(graph), old(bindings)@),
        forall|i: int| 0 <= i < old(arguments)@.len() ==> old(graph).holds(#[trigger] old(arguments)@[i] as int),
    ensures
        old(graph).extended_by(*final(graph)),
        bound_in(*final(graph), final(bindings)@),
        forall|i: int| 0 <= i < final(arguments)@.len() ==> final(graph).holds(#[trigger] final(arguments)@[i] as int),
        env_of(*final(graph), final(bindings)@) == env_of(*old(graph), old(bindings)@) + flatten(
            *model,
            prefix@,
            record,
            parameter,
        ),
        terms_of(*final(graph), final(arguments)@) == terms_of(*old(graph), old(arguments)@) + env_terms(
            flatten(*model, prefix@, record, parameter),
        ),
    decreases (match record {
        Some(j) => j + 1,
        None => 0,
    }),
{
    let ghost g0 = *graph;
    match record {
        None => {
            let h = graph.new_variable(prefix.clone(), parameter);
            proof {
                lemma_bound_extends(g0, *graph, bindings@);
                assert forall|i: int| 0 <= i < arguments@.len() implies graph.holds(#[trigger] arguments@[i] as int) by {
                    assert(g0.holds(arguments@[i] as int));
                }
            }
            let ghost p = prefix@;
            bindings.push((prefix, h));
            arguments.push(h);
            proof {
                lemma_env_stable(g0, *graph, old(bindings)@);
                lemma_terms_of_stable(g0, *graph, old(arguments)@);
                assert(env_of(*graph, bindings@) =~= env_of(*graph, old(bindings)@).push((p, graph.term_of(h as int))));
                assert(env_of(*graph, bindings@) =~= env_of(g0, old(bindings)@) + flatten(*model, p, record, parameter));
                assert(terms_of(*graph, arguments@) =~= terms_of(*graph, old(arguments)@).push(graph.term_of(h as int)));
                assert(env_terms(flatten(*model, p, record, parameter)) =~= seq![Term::Var(p, parameter)]);
                assert(terms_of(*graph, arguments@) =~= terms_of(g0, old(arguments)@) + env_terms(flatten(*model, p, record, parameter)));
            }
        },
        Some(j) => {
            proof {
                lemma_extends_refl(*graph);
                assert(env_of(*graph, bindings@) =~= env_of(g0, old(bindings)@) + flatten_fields(*model, prefix@, j as int, 0, parameter));
                assert(terms_of(*graph, arguments@) =~= terms_of(g0, old(arguments)@) + env_terms(flatten_fields(*model, prefix@, j as int, 0, parameter)));
            }
            let n = model.structs[j].subgraphs.len();
            let mut k: usize = 0;
            while k < n
                invariant
                    record == Some(j),
                    model.wf(),
                    j < model.structs@.len(),
                    n == model.structs@[j as int].subgraphs@.len(),
                    k <= n,
                    g0.extended_by(*graph),
                    bound_in(*graph, bindings@),
                    forall|i: int| 0 <= i < arguments@.len() ==> graph.holds(#[trigger] arguments@[i] as int),
                    g0 == *old(graph),
                    env_of(*graph, bindings@) == env_of(g0, old(bindings)@) + flatten_fields(
                        *model,
                        prefix@,
                        j as int,
                        k as int,
                        parameter,
                    ),
                    terms_of(*graph, arguments@) == terms_of(g0, old(arguments)@) + env_terms(
                        flatten_fields(*model, prefix@, j as int, k as int, parameter),
                    ),
                decreases n - k,
            {
                let field = &model.structs[j].subgraphs[k];
                proof {
                    assert(model.structs@[j as int].subgraphs@[k as int] == *field);
                    assert(field.1 is Some ==> field.1->Some_0 < j);
                }
                let mut name = prefix.clone();
                name.push_str(".");
                name.push_str(field.0.as_str());
                let ghost g1 = *graph;
                let ghost name_view = name@;
                let ghost e1 = env_of(*graph, bindings@);
                let ghost t1 = terms_of(*graph, arguments@);
                initialize(graph, bindings, arguments, name, field.1, parameter, model);
                proof {
                    lemma_extends_trans(g0, g1, *graph);
                    let ff = flatten_fields(*model, prefix@, j as int, k as int, parameter);
                    let fl = flatten(*model, name_view, field.1, parameter);
                    assert(name_view == prefix@ + "."@ + field.0@);
                    assert(flatten_fields(*model, prefix@, j as int, k + 1, parameter) == ff + fl);
                    assert(env_of(*graph, bindings@) =~= env_of(g0, old(bindings)@) + (ff + fl));
                    assert(env_terms(ff + fl) =~= env_terms(ff) + env_terms(fl));
                    assert(terms_of(*graph, arguments@) =~= terms_of(g0, old(arguments)@) + env_terms(ff + fl));
                }
                k = k + 1;
            }
            proof {
                assert(flatten(*model, prefix@, record, parameter) == flatten_fields(*model, prefix@, j as int, n as int, parameter));
            }
        },
    }
}

impl Registry {
    /// Compiles function `j` of the model unless it is compiled already.
    /// A function whose compilation is under way is being referred to from
    /// its own body, directly or through other functions: that is a
    /// `RecursiveDefinition`. Otherwise the outcome is `function_value`, with
    /// `j` marked as started; in particular a function that reaches itself
    /// through calls (`cyclic`) never compiles.
    pub fn build_graph(&mut self, model: &Model, j: usize) -> (r: Result<(), GraphError>)
        requires
            model.wf(),
            old(self).wf(*model),
            j < model.functions@.len(),
        ensures
            final(self).wf(*model),
            keeps(*old(self), *final(self)),
            old(self).compiled()[j as int] is Some ==> r is Ok && *final(self) == *old(self),
            old(self).compiled()[j as int] is None && old(self).started()[j as int] ==> r == Err::<
                (),
                GraphError,
            >(GraphError::RecursiveDefinition) && *final(self) == *old(self),
            old(self).compiled()[j as int] is None && !old(self).started()[j as int] ==> match r {
                Ok(_) => compiled_from(
                    final(self).compiled()[j as int]->Some_0,
                    *model,
                    j as int,
                    final(self).compiled(),
                    final(self).started(),
                ),
                Err(x) => function_value(
                    *model,
                    j as int,
                    final(self).compiled(),
                    old(self).started().update(j as int, true),
                ) == Err::<Term, GraphError>(x),
            },
            r is Ok ==> final(self).compiled()[j as int] is Some && started_compiled(*old(self), *final(self)),
            r is Err ==> final(self).compiled()[j as int] is None,
            old(self).compiled()[j as int] is None && cyclic(*model, j as int) ==> r is Err,
        decreases unstarted(old(self).started(), old(self).started().len() as int), 1int, model,
    {
        if self.compiled[j].is_some() {
            proof {
                lemma_started_compiled_refl(*self);
            }
            return Ok(());
        }
        if self.started[j] {
            return Err(GraphError::RecursiveDefinition);
        }
        let ghost r0 = *self;
        self.started.set(j, true);
        proof {
            lemma_unstarted_mark(r0.started(), j as int, r0.started().len() as int);
            assert(self.compiled() == r0.compiled());
            assert(self.started() == r0.started().update(j as int, true));
            assert forall|k: int|
                0 <= k < self.compiled().len() && #[trigger] self.compiled()[k] is Some implies self.started()[k]
                    && self.compiled()[k]->Some_0.wf() && self.compiled()[k]->Some_0.function.name@
                == model.functions@[k].name@ && compiled_from(
                self.compiled()[k]->Some_0,
                *model,
                k,
                self.compiled(),
                self.started(),
            ) by {
                assert(r0.compiled()[k] is Some);
                lemma_compiled_from_reg(
                    r0.compiled()[k]->Some_0,
                    *model,
                    k,
                    r0.compiled(),
                    self.compiled(),
                    r0.started(),
                    self.started(),
                );
            }
        }
        let ghost r1 = *self;
        let compiled = self.compile_body(model, j);
        proof {
            lemma_unstarted_keeps(r1.started(), self.started(), r1.started().len() as int);
            assert(r1.started()[j as int] && r1.compiled()[j as int] is None);
            assert(self.compiled()[j as int] is None);
            assert forall|k: int| 0 <= k < r0.started().len() && #[trigger] r0.started()[k] implies self.started()[k] by {
                assert(r1.started()[k]);
            }
            assert forall|k: int|
                0 <= k < r0.started().len() && r0.started()[k] && #[trigger] r0.compiled()[k] is None implies self.compiled()[k] is None by {
                assert(r1.started()[k]);
                assert(r1.compiled()[k] is None);
            }
            assert forall|k: int|
                0 <= k < r0.compiled().len() && #[trigger] r0.compiled()[k] is Some implies self.compiled()[k]
                    == r0.compiled()[k] by {
                assert(r1.compiled()[k] == r0.compiled()[k]);
            }
        }
        match compiled {
            Ok(c) => {
                let ghost r2 = *self;
                self.compiled.set(j, Some(c));
                proof {
                    self.ranks = Ghost(r2.ranks@.update(j as int, r2.count@));
                    self.count = Ghost(r2.count@ + 1);
                    assert(r2.ranked(*model));
                    assert forall|k: int, b: int|
                        0 <= k < self.compiled@.len() && self.compiled@[k] is Some && #[trigger] calls(*model, k, b)
                        implies 0 <= b < self.compiled@.len() && self.compiled@[b] is Some && self.ranks@[b] < self.ranks@[k] by {
                        if k == j {
                            lemma_function_calls_compiled(*model, j as int, r2.compiled(), r1.started(), b);
                        } else {
                            assert(r2.compiled@[k] is Some);
                        }
                    }
                    assert(self.ranked(*model));
                    assert(r2.started()[j as int]);
                    assert(reg_keeps(r2.compiled(), self.compiled()));
                    assert forall|k: int|
                        0 <= k < self.compiled().len() && #[trigger] self.compiled()[k] is Some implies self.started()[k]
                            && self.compiled()[k]->Some_0.wf() && self.compiled()[k]->Some_0.function.name@
                        == model.functions@[k].name@ && compiled_from(
                        self.compiled()[k]->Some_0,
                        *model,
                        k,
                        self.compiled(),
                        self.started(),
                    ) by {
                        if k != j {
                            assert(r2.compiled()[k] is Some);
                            lemma_compiled_from_reg(
                                r2.compiled()[k]->Some_0,
                                *model,
                                k,
                                r2.compiled(),
                                self.compiled(),
                                r2.started(),
                                self.started(),
                            );
                        } else {
                            lemma_compiled_from_reg(
                                c,
                                *model,
                                k,
                                r2.compiled(),
                                self.compiled(),
                                r1.started(),
                                self.started(),
                            );
                        }
                    }
                    assert forall|k: int|
                        0 <= k < self.started().len() && #[trigger] self.started()[k] && !r0.started()[k] implies self.compiled()[k] is Some by {
                        if k != j {
                            assert(!r1.started()[k]);
                            assert(r2.compiled()[k] is Some);
                        }
                    }
                }
                proof {
                    if cyclic(*model, j as int) {
                        let p = choose|p: Seq<int>|
                            p.len() >= 2 && p[0] == j && p.last() == j && #[trigger] call_path(*model, p);
                        self.lemma_path_ranked(*model, p, p.len() - 1);
                    }
                }
                Ok(())
            },
            Err(e) => {
                proof {
                    assert(r1.started() =~= r0.started().update(j as int, true));
                }
                Err(e)
            },
        }
    }

    /// Translates the body of function `j` into a graph of its own.
    fn compile_body(&mut self, model: &Model, j: usize) -> (r: Result<Compiled, GraphError>)
        requires
            model.wf(),
            old(self).wf(*model),
            j < model.functions@.len(),
        ensures
            final(self).wf(*model),
            keeps(*old(self), *final(self)),
            match r {
                Ok(c) => c.wf() && c.function.name@ == model.functions@[j as int].name@ && compiled_from(
                    c,
                    *model,
                    j as int,
                    final(self).compiled(),
                    old(self).started(),
                ) && started_compiled(*old(self), *final(self)),
                Err(x) => function_value(*model, j as int, final(self).compiled(), old(self).started())
                    == Err::<Term, GraphError>(x),
            },
        decreases unstarted(old(self).started(), old(self).started().len() as int), 3int, model,
    {
        let ghost st0 = self.started();
        let def = &model.functions[j];
        let mut graph = Graph::new();
        let mut bindings: Vec<(String, usize)> = Vec::new();
        let mut arguments: Vec<usize> = Vec::new();
        let mut a: usize = 0;
        proof {
            assert(env_of(graph, bindings@) =~= arguments_env(*model, def.arguments@, 0));
            assert(terms_of(graph, arguments@) =~= env_terms(arguments_env(*model, def.arguments@, 0)));
        }
        while a < def.arguments.len()
            invariant
                model.wf(),
                j < model.functions@.len(),
                *def == model.functions@[j as int],
                a <= def.arguments@.len(),
                graph.wf(),
                bound_in(graph, bindings@),
                forall|i: int| 0 <= i < arguments@.len() ==> graph.holds(#[trigger] arguments@[i] as int),
                env_of(graph, bindings@) == arguments_env(*model, def.arguments@, a as int),
                terms_of(graph, arguments@) == env_terms(arguments_env(*model, def.arguments@, a as int)),
            decreases def.arguments@.len() - a,
        {
            let arg = &def.arguments[a];
            proof {
                assert(model.functions@[j as int].arguments@[a as int] == *arg);
                if arg.record is Some {
                    assert(arg.record->Some_0 < model.structs@.len());
                }
            }
            initialize(&mut graph, &mut bindings, &mut arguments, arg.name.clone(), arg.record, arg.parameter, model);
            proof {
                let fl = flatten(*model, arg.name@, arg.record, arg.parameter);
                assert(env_terms(arguments_env(*model, def.arguments@, a as int) + fl) =~= env_terms(
                    arguments_env(*model, def.arguments@, a as int),
                ) + env_terms(fl));
            }
            a = a + 1;
        }
        let ghost env0 = arguments_env(*model, def.arguments@, def.arguments@.len() as int);
        let ghost g_args = graph;
        proof {
            lemma_keeps_refl(*self);
            lemma_started_compiled_refl(*self);
            lemma_extends_refl(graph);
        }
        let mut value: Option<usize> = None;
        let mut s: usize = 0;
        while s < def.body.len()
            invariant
                model.wf(),
                self.wf(*model),
                keeps(*old(self), *self),
                started_compiled(*old(self), *self),
                st0 == old(self).started(),
                unstarted(self.started(), self.started().len() as int) <= unstarted(old(self).started(), old(self).started().len() as int),
                j < model.functions@.len(),
                *def == model.functions@[j as int],
                s <= def.body@.len(),
                graph.wf(),
                bound_in(graph, bindings@),
                forall|i: int| 0 <= i < arguments@.len() ==> graph.holds(#[trigger] arguments@[i] as int),
                value matches Some(v) ==> graph.holds(v as int),
                g_args.extended_by(graph),
                forall|i: int| 0 <= i < arguments@.len() ==> g_args.holds(#[trigger] arguments@[i] as int),
                terms_of(g_args, arguments@) == env_terms(env0),
                env0 == arguments_env(*model, def.arguments@, def.arguments@.len() as int),
                run_body(def.body@, s as int, env0, *model, self.compiled(), st0) == Ok::<
                    (Seq<(Seq<char>, Term)>, Option<Term>),
                    GraphError,
                >((env_of(graph, bindings@), value_term(graph, value))),
            decreases def.body@.len() - s,
        {
            let ghost g1 = graph;
            let ghost r1 = *self;
            let ghost b1 = bindings@;
            match &def.body[s] {
                Statement::Let(name, e) => {
                    let h = match self.build_node(&mut graph, &bindings, e, model) {
                        Ok(h) => h,
                        Err(err) => {
                            proof {
                                lemma_keeps_trans(*old(self), r1, *self);
                                lemma_pending_from(*old(self), r1, self.compiled());
                                lemma_statement_err(
                                    def.body@,
                                    s as int,
                                    env0,
                                    *model,
                                    r1.compiled(),
                                    self.compiled(),
                                    st0,
                                    r1.started(),
                                    err,
                                );
                            }
                            return Err(err);
                        },
                    };
                    bindings.push((name.clone(), h));
                    proof {
                        lemma_pending_from(*old(self), r1, self.compiled());
                        lemma_run_body_reg(def.body@, s as int, env0, *model, r1.compiled(), self.compiled(), st0, st0);
                        lemma_expr_term_st(*e, env_of(g1, b1), *model, self.compiled(), st0, r1.started());
                        lemma_env_stable(g1, graph, b1);
                        assert(env_of(graph, bindings@) =~= env_of(g1, b1).push((name@, graph.term_of(h as int))));
                        lemma_value_term_stable(g1, graph, value);
                        lemma_bound_extends(g1, graph, bindings@.drop_last());
                        assert forall|i: int| 0 <= i < bindings@.len() implies graph.holds(#[trigger] bindings@[i].1 as int) by {
                            if i < bindings@.len() - 1 {
                                assert(bindings@[i] == bindings@.drop_last()[i]);
                            }
                        }
                    }
                },
                Statement::Value(e) => {
                    let h = match self.build_node(&mut graph, &bindings, e, model) {
                        Ok(h) => h,
                        Err(err) => {
                            proof {
                                lemma_keeps_trans(*old(self), r1, *self);
                                lemma_pending_from(*old(self), r1, self.compiled());
                                lemma_statement_err(
                                    def.body@,
                                    s as int,
                                    env0,
                                    *model,
                                    r1.compiled(),
                                    self.compiled(),
                                    st0,
                                    r1.started(),
                                    err,
                                );
                            }
                            return Err(err);
                        },
                    };
                    value = Some(h);
                    proof {
                        lemma_pending_from(*old(self), r1, self.compiled());
                        lemma_run_body_reg(def.body@, s as int, env0, *model, r1.compiled(), self.compiled(), st0, st0);
                        lemma_expr_term_st(*e, env_of(g1, b1), *model, self.compiled(), st0, r1.started());
                        lemma_env_stable(g1, graph, bindings@);
                        lemma_bound_extends(g1, graph, bindings@);
                    }
                },
            }
            proof {
                lemma_started_compiled_trans(*old(self), r1, *self);
                lemma_keeps_trans(*old(self), r1, *self);
                lemma_unstarted_keeps(r1.started(), self.started(), r1.started().len() as int);
                assert forall|i: int| 0 <= i < arguments@.len() implies graph.holds(#[trigger] arguments@[i] as int) by {
                    assert(g1.holds(arguments@[i] as int));
                }
                lemma_extends_trans(g_args, g1, graph);
            }
            s = s + 1;
        }
        proof {
            lemma_terms_of_stable(g_args, graph, arguments@);
        }
        match value {
            Some(result) => Ok(
                Compiled {
                    graph,
                    function: crate::splice::Function { name: def.name.clone(), arguments, result },
                },
            ),
            None => Err(GraphError::MissingResult),
        }
    }

    /// Builds the node for `expr` in `graph`, where `bindings` gives the
    /// node of each name in scope. A call compiles the callee first if
    /// needed and splices its graph with the argument nodes.
    pub fn build_node(
        &mut self,
        graph: &mut Graph,
        bindings: &Vec<(String, usize)>,
        expr: &Expr,
        model: &Model,
    ) -> (r: Result<usize, GraphError>)
        requires
            model.wf(),
            old(self).wf(*model),
            old(graph).wf(),
            bound_in(*old(graph), bindings@),
        ensures
            final(self).wf(*model),
            keeps(*old(self), *final(self)),
            old(graph).extended_by(*final(graph)),
            match r {
                Ok(h) => final(graph).holds(h as int) && expr_term(
                    *expr,
                    env_of(*old(graph), bindings@),
                    *model,
                    final(self).compiled(),
                    old(self).started(),
                ) == Ok::<Term, GraphError>(final(graph).term_of(h as int)) && started_compiled(
                    *old(self),
                    *final(self),
                ),
                Err(x) => expr_term(
                    *expr,
                    env_of(*old(graph), bindings@),
                    *model,
                    final(self).compiled(),
                    old(self).started(),
                ) == Err::<Term, GraphError>(x),
            },
            *expr is Name ==> r == match lookup(bindings@, expr->Name_0@, bindings@.len() as int) {
                Some(h) => Ok::<usize, GraphError>(h),
                None => Err::<usize, GraphError>(GraphError::UndefinedReference),
            },
        decreases unstarted(old(self).started(), old(self).started().len() as int), 2int, expr,
    {
        let ghost g0 = *graph;
        let ghost st0 = self.started();
        proof {
            lemma_extends_refl(*graph);
            lemma_keeps_refl(*self);
            lemma_started_compiled_refl(*self);
        }
        match expr {
            Expr::Binary(op, l, rr) => {
                let a = match self.build_node(graph, bindings, l, model) {
                    Ok(a) => a,
                    Err(e) => return Err(e),
                };
                let ghost g1 = *graph;
                let ghost r1 = *self;
                proof {
                    lemma_bound_extends(g0, g1, bindings@);
                    lemma_unstarted_keeps(old(self).started(), r1.started(), r1.started().len() as int);
                }
                let b = match self.build_node(graph, bindings, rr, model) {
                    Ok(b) => b,
                    Err(e) => {
                        proof {
                            lemma_extends_trans(g0, g1, *graph);
                            lemma_keeps_trans(*old(self), r1, *self);
                            lemma_expr_term_reg(**l, env_of(g0, bindings@), *model, r1.compiled(), self.compiled(), st0, st0);
                            lemma_env_stable(g0, g1, bindings@);
                            lemma_pending_from(*old(self), r1, self.compiled());
                            lemma_expr_term_st(**rr, env_of(g0, bindings@), *model, self.compiled(), st0, r1.started());
                        }
                        return Err(e);
                    },
                };
                let ghost g2 = *graph;
                proof {
                    lemma_extends_trans(g0, g1, g2);
                    lemma_keeps_trans(*old(self), r1, *self);
                    lemma_started_compiled_trans(*old(self), r1, *self);
                    lemma_expr_term_reg(**l, env_of(g0, bindings@), *model, r1.compiled(), self.compiled(), st0, st0);
                    lemma_env_stable(g0, g1, bindings@);
                    lemma_pending_from(*old(self), r1, self.compiled());
                    lemma_expr_term_st(**rr, env_of(g0, bindings@), *model, self.compiled(), st0, r1.started());
                    assert(g2.term_of(a as int) == g1.term_of(a as int));
                }
                let r = graph.new_binary(*op, a, b);
                proof {
                    lemma_extends_trans(g0, g2, *graph);
                }
                r
            },
            Expr::Unary(op, a) => {
                let a = match self.build_node(graph, bindings, a, model) {
                    Ok(a) => a,
                    Err(e) => return Err(e),
                };
                let ghost g1 = *graph;
                let r = graph.new_unary(*op, a);
                proof {
                    lemma_extends_trans(g0, g1, *graph);
                }
                Ok(r)
            },
            Expr::Constant(c) => {
                let c = match Constant::new(c.mantissa, c.scale) {
                    Ok(c) => c,
                    Err(e) => return Err(e),
                };
                Ok(graph.new_constant(c))
            },
            Expr::Name(n) => {
                proof {
                    lemma_lookup_bound(*graph, bindings@, n@, bindings@.len() as int);
                    lemma_lookup_env(*graph, bindings@, n@, bindings@.len() as int);
                }
                match find_binding(bindings, n) {
                    Some(h) => Ok(h),
                    None => Err(GraphError::UndefinedReference),
                }
            },
            Expr::Call(name, args) => self.build_call(graph, bindings, name, args, model),
        }
    }
}

impl Registry {
    /// Builds a call of the function named `name` on the nodes of `args`.
    fn build_call(
        &mut self,
        graph: &mut Graph,
        bindings: &Vec<(String, usize)>,
        name: &String,
        args: &Vec<Expr>,
        model: &Model,
    ) -> (r: Result<usize, GraphError>)
        requires
            model.wf(),
            old(self).wf(*model),
            old(graph).wf(),
            bound_in(*old(graph), bindings@),
        ensures
            final(self).wf(*model),
            keeps(*old(self), *final(self)),
            old(graph).extended_by(*final(graph)),
            match r {
                Ok(h) => final(graph).holds(h as int) && call_value(
                    *name,
                    *args,
                    env_of(*old(graph), bindings@),
                    *model,
                    final(self).compiled(),
                    old(self).started(),
                ) == Ok::<Term, GraphError>(final(graph).term_of(h as int)) && started_compiled(
                    *old(self),
                    *final(self),
                ),
                Err(x) => call_value(
                    *name,
                    *args,
                    env_of(*old(graph), bindings@),
                    *model,
                    final(self).compiled(),
                    old(self).started(),
                ) == Err::<Term, GraphError>(x),
            },
        decreases unstarted(old(self).started(), old(self).started().len() as int), 2int, args,
    {
        let ghost g0 = *graph;
        let ghost st0 = self.started();
        let ghost env0 = env_of(g0, bindings@);
        proof {
            lemma_extends_refl(*graph);
            lemma_keeps_refl(*self);
        }
        let j = match model.find_function(name) {
            Some(j) => j,
            None => return Err(GraphError::UndefinedReference),
        };
        match self.build_graph(model, j) {
            Ok(()) => {},
            Err(e) => return Err(e),
        }
        let ghost r1 = *self;
        proof {
            lemma_unstarted_keeps(old(self).started(), r1.started(), r1.started().len() as int);
            assert(args_terms(*args, 0, env0, *model, self.compiled(), st0) == Ok::<Seq<Term>, GraphError>(Seq::empty()));
        }
        let mut inputs: Vec<usize> = Vec::new();
        let ghost mut ts: Seq<Term> = Seq::empty();
        let mut i: usize = 0;
        while i < args.len()
            invariant
                model.wf(),
                self.wf(*model),
                keeps(r1, *self),
                keeps(*old(self), r1),
                started_compiled(*old(self), *self),
                st0 == old(self).started(),
                r1.compiled()[j as int] is Some,
                j < model.functions@.len(),
                named_from(model.functions@, name@, 0) == Some(j as int),
                unstarted(self.started(), self.started().len() as int) <= unstarted(old(self).started(), old(self).started().len() as int),
                g0 == *old(graph),
                env0 == env_of(g0, bindings@),
                g0.extended_by(*graph),
                bound_in(g0, bindings@),
                bound_in(*graph, bindings@),
                i <= args@.len(),
                inputs@.len() == i,
                ts.len() == i,
                args_terms(*args, i as int, env0, *model, self.compiled(), st0) == Ok::<Seq<Term>, GraphError>(ts),
                forall|k: int| 0 <= k < i ==> graph.holds(#[trigger] inputs@[k] as int) && ts[k] == graph.term_of(inputs@[k] as int),
            decreases args@.len() - i,
        {
            let ghost g1 = *graph;
            let ghost r2 = *self;
            proof {
                assert(decreases_to!(args => args@[i as int]));
                lemma_keeps_trans(*old(self), r1, r2);
            }
            let h = match self.build_node(graph, bindings, &args[i], model) {
                Ok(h) => h,
                Err(e) => {
                    proof {
                        lemma_extends_trans(g0, g1, *graph);
                        lemma_keeps_trans(r1, r2, *self);
                        lemma_keeps_trans(*old(self), r1, *self);
                        lemma_env_stable(g0, g1, bindings@);
                        lemma_pending_from(*old(self), r2, self.compiled());
                        lemma_expr_term_st(args@[i as int], env0, *model, self.compiled(), st0, r2.started());
                        lemma_args_terms_reg(*args, i as int, env0, *model, r2.compiled(), self.compiled(), st0, st0);
                        lemma_args_terms_err(*args, i as int + 1, args@.len() as int, env0, *model, self.compiled(), st0, e);
                        assert(self.compiled()[j as int] is Some);
                    }
                    return Err(e);
                },
            };
            inputs.push(h);
            proof {
                lemma_extends_trans(g0, g1, *graph);
                lemma_keeps_trans(r1, r2, *self);
                lemma_started_compiled_trans(*old(self), r2, *self);
                lemma_unstarted_keeps(r2.started(), self.started(), r2.started().len() as int);
                lemma_bound_extends(g1, *graph, bindings@);
                lemma_env_stable(g0, g1, bindings@);
                lemma_pending_from(*old(self), r2, self.compiled());
                lemma_expr_term_st(args@[i as int], env0, *model, self.compiled(), st0, r2.started());
                lemma_args_terms_reg(*args, i as int, env0, *model, r2.compiled(), self.compiled(), st0, st0);
                let t = graph.term_of(h as int);
                assert forall|k: int| 0 <= k < i implies graph.holds(#[trigger] inputs@[k] as int) && ts[k] == graph.term_of(inputs@[k] as int) by {
                    assert(g1.holds(inputs@[k] as int));
                    assert(graph.term_of(inputs@[k] as int) == g1.term_of(inputs@[k] as int));
                }
                ts = ts.push(t);
                assert(inputs@[i as int] == h);
            }
            i = i + 1;
        }
        proof {
            lemma_keeps_trans(*old(self), r1, *self);
        }
        let ghost g2 = *graph;
        match self.get(j) {
            Some(c) => {
                proof {
                    assert(self.compiled()[j as int]->Some_0.wf());
                    assert(input_terms(g2, inputs@) =~= ts);
                }
                let r = graph.splice(&c.graph, &c.function, inputs);
                proof {
                    lemma_extends_trans(g0, g2, *graph);
                }
                r
            },
            None => {
                proof {
                    assert(false);
                }
                Err(GraphError::RecursiveDefinition)
            },
        }
    }
}

/// Whether every function whose compilation started between `a` and `b`
/// is compiled in `b`.
pub open spec fn started_compiled(a: Registry, b: Registry) -> bool {
    forall|k: int|
        0 <= k < b.started().len() && #[trigger] b.started()[k] && !a.started()[k] ==> b.compiled()[k] is Some
}

proof fn lemma_started_compiled_refl(a: Registry)
    ensures
        started_compiled(a, a),
{
}

proof fn lemma_started_compiled_trans(a: Registry, b: Registry, c: Registry)
    requires
        a.started().len() == a.compiled().len(),
        keeps(a, b),
        keeps(b, c),
        started_compiled(a, b),
        started_compiled(b, c),
    ensures
        started_compiled(a, c),
{
    assert forall|k: int| 0 <= k < c.started().len() && #[trigger] c.started()[k] && !a.started()[k] implies c.compiled()[k] is Some by {
        if b.started()[k] {
            assert(b.compiled()[k] is Some);
        }
    }
}

/// The functions started between `a` and `b` are compiled in `reg`, so
/// the two started sets give the same outcomes over `reg`.
proof fn lemma_pending_from(a: Registry, b: Registry, reg: Seq<Option<Compiled>>)
    requires
        a.started().len() == a.compiled().len(),
        keeps(a, b),
        started_compiled(a, b),
        reg_keeps(b.compiled(), reg),
    ensures
        same_pending(a.started(), b.started(), reg),
{
    assert forall|k: int| 0 <= k < a.started().len() && #[trigger] a.started()[k] != b.started()[k] implies 0 <= k < reg.len()
        && reg[k] is Some by {
        if a.started()[k] {
            assert(b.started()[k]);
        }
        assert(b.compiled()[k] is Some);
    }
}

proof fn lemma_args_terms_err(
    args: Vec<Expr>,
    n: int,
    m: int,
    env: Seq<(Seq<char>, Term)>,
    model: Model,
    reg: Seq<Option<Compiled>>,
    st: Seq<bool>,
    x: GraphError,
)
    requires
        0 < n <= m <= args@.len(),
        args_terms(args, n, env, model, reg, st) == Err::<Seq<Term>, GraphError>(x),
    ensures
        args_terms(args, m, env, model, reg, st) == Err::<Seq<Term>, GraphError>(x),
    decreases m - n,
{
    if n < m {
        lemma_args_terms_err(args, n, m - 1, env, model, reg, st, x);
    }
}

/// Whether `r1` keeps every compiled function of `r0`.
pub open spec fn reg_keeps(r0: Seq<Option<Compiled>>, r1: Seq<Option<Compiled>>) -> bool {
    &&& r0.len() == r1.len()
    &&& forall|j: int| 0 <= j < r0.len() && #[trigger] r0[j] is Some ==> r1[j] == r0[j]
}

/// The names in scope with the terms of their nodes in `g`.
pub open spec fn env_of(g: Graph, bindings: Seq<(String, usize)>) -> Seq<(Seq<char>, Term)> {
    bindings.map_values(|p: (String, usize)| (p.0@, g.term_of(p.1 as int)))
}

/// The term of the last binding of `name` among the first `n`.
pub open spec fn lookup_env(env: Seq<(Seq<char>, Term)>, name: Seq<char>, n: int) -> Option<Term>
    decreases n,
{
    if n <= 0 {
        None
    } else if env[n - 1].0 == name {
        Some(env[n - 1].1)
    } else {
        lookup_env(env, name, n - 1)
    }
}

proof fn lemma_lookup_env(g: Graph, bindings: Seq<(String, usize)>, name: Seq<char>, n: int)
    requires
        0 <= n <= bindings.len(),
    ensures
        lookup_env(env_of(g, bindings), name, n) == match lookup(bindings, name, n) {
            Some(h) => Some(g.term_of(h as int)),
            None => None::<Term>,
        },
    decreases n,
{
    if n > 0 {
        lemma_lookup_env(g, bindings, name, n - 1);
    }
}

proof fn lemma_env_stable(g0: Graph, g1: Graph, bindings: Seq<(String, usize)>)
    requires
        g0.extended_by(g1),
        bound_in(g0, bindings),
    ensures
        env_of(g1, bindings) == env_of(g0, bindings),
{
    assert forall|i: int| 0 <= i < bindings.len() implies env_of(g1, bindings)[i] == env_of(g0, bindings)[i] by {
        assert(g0.holds(bindings[i].1 as int));
        assert(g1.term_of(bindings[i].1 as int) == g0.term_of(bindings[i].1 as int));
    }
    assert(env_of(g1, bindings) =~= env_of(g0, bindings));
}

/// Whether `s0` and `s1` differ only on functions compiled in `reg`.
pub open spec fn same_pending(s0: Seq<bool>, s1: Seq<bool>, reg: Seq<Option<Compiled>>) -> bool {
    &&& s0.len() == s1.len()
    &&& forall|k: int| 0 <= k < s0.len() && #[trigger] s0[k] != s1[k] ==> 0 <= k < reg.len() && reg[k] is Some
}

proof fn lemma_expr_term_reg(
    e: Expr,
    env: Seq<(Seq<char>, Term)>,
    model: Model,
    r0: Seq<Option<Compiled>>,
    r1: Seq<Option<Compiled>>,
    s0: Seq<bool>,
    s1: Seq<bool>,
)
    requires
        reg_keeps(r0, r1),
        expr_term(e, env, model, r0, s0) is Ok,
    ensures
        expr_term(e, env, model, r1, s1) == expr_term(e, env, model, r0, s0),
    decreases e, 0int,
{
    match e {
        Expr::Binary(_, l, r) => {
            lemma_expr_term_reg(*l, env, model, r0, r1, s0, s1);
            lemma_expr_term_reg(*r, env, model, r0, r1, s0, s1);
        },
        Expr::Unary(_, a) => {
            lemma_expr_term_reg(*a, env, model, r0, r1, s0, s1);
        },
        Expr::Call(name, args) => {
            lemma_call_value_reg(name, args, env, model, r0, r1, s0, s1);
        },
        _ => {},
    }
}

proof fn lemma_call_value_reg(
    name: String,
    args: Vec<Expr>,
    env: Seq<(Seq<char>, Term)>,
    model: Model,
    r0: Seq<Option<Compiled>>,
    r1: Seq<Option<Compiled>>,
    s0: Seq<bool>,
    s1: Seq<bool>,
)
    requires
        reg_keeps(r0, r1),
        call_value(name, args, env, model, r0, s0) is Ok,
    ensures
        call_value(name, args, env, model, r1, s1) == call_value(name, args, env, model, r0, s0),
    decreases args, args@.len() + 1,
{
    let j = named_from(model.functions@, name@, 0)->Some_0;
    assert(r1[j] == r0[j]);
    lemma_args_terms_reg(args, args@.len() as int, env, model, r0, r1, s0, s1);
}

proof fn lemma_args_terms_reg(
    args: Vec<Expr>,
    n: int,
    env: Seq<(Seq<char>, Term)>,
    model: Model,
    r0: Seq<Option<Compiled>>,
    r1: Seq<Option<Compiled>>,
    s0: Seq<bool>,
    s1: Seq<bool>,
)
    requires
        reg_keeps(r0, r1),
        args_terms(args, n, env, model, r0, s0) is Ok,
    ensures
        args_terms(args, n, env, model, r1, s1) == args_terms(args, n, env, model, r0, s0),
    decreases args, n,
{
    if 0 < n <= args@.len() {
        lemma_args_terms_reg(args, n - 1, env, model, r0, r1, s0, s1);
        lemma_expr_term_reg(args@[n - 1], env, model, r0, r1, s0, s1);
    }
}

proof fn lemma_run_body_reg(
    body: Seq<Statement>,
    n: int,
    env: Seq<(Seq<char>, Term)>,
    model: Model,
    r0: Seq<Option<Compiled>>,
    r1: Seq<Option<Compiled>>,
    s0: Seq<bool>,
    s1: Seq<bool>,
)
    requires
        reg_keeps(r0, r1),
        run_body(body, n, env, model, r0, s0) is Ok,
    ensures
        run_body(body, n, env, model, r1, s1) == run_body(body, n, env, model, r0, s0),
    decreases n,
{
    if 0 < n <= body.len() {
        lemma_run_body_reg(body, n - 1, env, model, r0, r1, s0, s1);
        let state = run_body(body, n - 1, env, model, r0, s0)->Ok_0;
        match body[n - 1] {
            Statement::Let(_, e) => {
                lemma_expr_term_reg(e, state.0, model, r0, r1, s0, s1);
            },
            Statement::Value(e) => {
                lemma_expr_term_reg(e, state.0, model, r0, r1, s0, s1);
            },
        }
    }
}

proof fn lemma_compiled_from_reg(
    c: Compiled,
    model: Model,
    j: int,
    r0: Seq<Option<Compiled>>,
    r1: Seq<Option<Compiled>>,
    s0: Seq<bool>,
    s1: Seq<bool>,
)
    requires
        reg_keeps(r0, r1),
        compiled_from(c, model, j, r0, s0),
    ensures
        compiled_from(c, model, j, r1, s1),
{
    let def = model.functions@[j];
    lemma_run_body_reg(
        def.body@,
        def.body@.len() as int,
        arguments_env(model, def.arguments@, def.arguments@.len() as int),
        model,
        r0,
        r1,
        s0,
        s1,
    );
}

proof fn lemma_expr_term_st(
    e: Expr,
    env: Seq<(Seq<char>, Term)>,
    model: Model,
    reg: Seq<Option<Compiled>>,
    s0: Seq<bool>,
    s1: Seq<bool>,
)
    requires
        same_pending(s0, s1, reg),
    ensures
        expr_term(e, env, model, reg, s1) == expr_term(e, env, model, reg, s0),
    decreases pending(s0), 2int, e, 0int,
{
    match e {
        Expr::Binary(_, l, r) => {
            lemma_expr_term_st(*l, env, model, reg, s0, s1);
            lemma_expr_term_st(*r, env, model, reg, s0, s1);
        },
        Expr::Unary(_, a) => {
            lemma_expr_term_st(*a, env, model, reg, s0, s1);
        },
        Expr::Call(name, args) => {
            lemma_call_value_st(name, args, env, model, reg, s0, s1);
        },
        _ => {},
    }
}

proof fn lemma_call_value_st(
    name: String,
    args: Vec<Expr>,
    env: Seq<(Seq<char>, Term)>,
    model: Model,
    reg: Seq<Option<Compiled>>,
    s0: Seq<bool>,
    s1: Seq<bool>,
)
    requires
        same_pending(s0, s1, reg),
    ensures
        call_value(name, args, env, model, reg, s1) == call_value(name, args, env, model, reg, s0),
    decreases pending(s0), 2int, args, args@.len() + 1,
{
    lemma_args_terms_st(args, args@.len() as int, env, model, reg, s0, s1);
    if let Some(j) = named_from(model.functions@, name@, 0) {
        if !(0 <= j < reg.len() && reg[j] is Some) && 0 <= j < s0.len() {
            assert(s0[j] == s1[j]);
            if !s0[j] {
                lemma_unstarted_mark(s0, j, s0.len() as int);
                let t0 = s0.update(j, true);
                let t1 = s1.update(j, true);
                assert forall|k: int| 0 <= k < t0.len() && #[trigger] t0[k] != t1[k] implies 0 <= k < reg.len()
                    && reg[k] is Some by {
                    assert(s0[k] != s1[k]);
                }
                lemma_function_value_st(model, j, reg, t0, t1);
            }
        }
    }
}

proof fn lemma_args_terms_st(
    args: Vec<Expr>,
    n: int,
    env: Seq<(Seq<char>, Term)>,
    model: Model,
    reg: Seq<Option<Compiled>>,
    s0: Seq<bool>,
    s1: Seq<bool>,
)
    requires
        same_pending(s0, s1, reg),
    ensures
        args_terms(args, n, env, model, reg, s1) == args_terms(args, n, env, model, reg, s0),
    decreases pending(s0), 2int, args, n,
{
    if 0 < n <= args@.len() {
        lemma_args_terms_st(args, n - 1, env, model, reg, s0, s1);
        lemma_expr_term_st(args@[n - 1], env, model, reg, s0, s1);
    }
}

proof fn lemma_run_body_st(
    body: Seq<Statement>,
    n: int,
    env: Seq<(Seq<char>, Term)>,
    model: Model,
    reg: Seq<Option<Compiled>>,
    s0: Seq<bool>,
    s1: Seq<bool>,
)
    requires
        same_pending(s0, s1, reg),
    ensures
        run_body(body, n, env, model, reg, s1) == run_body(body, n, env, model, reg, s0),
    decreases pending(s0), 3int, model, n,
{
    if 0 < n <= body.len() {
        lemma_run_body_st(body, n - 1, env, model, reg, s0, s1);
        if let Ok(state) = run_body(body, n - 1, env, model, reg, s0) {
            match body[n - 1] {
                Statement::Let(_, e) => {
                    lemma_expr_term_st(e, state.0, model, reg, s0, s1);
                },
                Statement::Value(e) => {
                    lemma_expr_term_st(e, state.0, model, reg, s0, s1);
                },
            }
        }
    }
}

proof fn lemma_function_value_st(
    model: Model,
    j: int,
    reg: Seq<Option<Compiled>>,
    s0: Seq<bool>,
    s1: Seq<bool>,
)
    requires
        same_pending(s0, s1, reg),
    ensures
        function_value(model, j, reg, s1) == function_value(model, j, reg, s0),
    decreases pending(s0), 4int, model, 0int,
{
    if 0 <= j < model.functions@.len() {
        let def = model.functions@[j];
        lemma_run_body_st(
            def.body@,
            def.body@.len() as int,
            arguments_env(model, def.arguments@, def.arguments@.len() as int),
            model,
            reg,
            s0,
            s1,
        );
    }
}

proof fn lemma_run_body_err(
    body: Seq<Statement>,
    n: int,
    m: int,
    env: Seq<(Seq<char>, Term)>,
    model: Model,
    reg: Seq<Option<Compiled>>,
    st: Seq<bool>,
    x: GraphError,
)
    requires
        0 < n <= m <= body.len(),
        run_body(body, n, env, model, reg, st) == Err::<(Seq<(Seq<char>, Term)>, Option<Term>), GraphError>(x),
    ensures
        run_body(body, m, env, model, reg, st) == Err::<(Seq<(Seq<char>, Term)>, Option<Term>), GraphError>(x),
    decreases m - n,
{
    if n < m {
        lemma_run_body_err(body, n, m - 1, env, model, reg, st, x);
    }
}

/// A statement that fails makes the body fail with its error.
proof fn lemma_statement_err(
    body: Seq<Statement>,
    s: int,
    env0: Seq<(Seq<char>, Term)>,
    model: Model,
    r0: Seq<Option<Compiled>>,
    r1: Seq<Option<Compiled>>,
    s0: Seq<bool>,
    s1: Seq<bool>,
    x: GraphError,
)
    requires
        0 <= s < body.len(),
        reg_keeps(r0, r1),
        same_pending(s0, s1, r1),
        run_body(body, s, env0, model, r0, s0) is Ok,
        expr_term(
            match body[s] {
                Statement::Let(_, e) => e,
                Statement::Value(e) => e,
            },
            run_body(body, s, env0, model, r0, s0)->Ok_0.0,
            model,
            r1,
            s1,
        ) == Err::<Term, GraphError>(x),
    ensures
        run_body(body, body.len() as int, env0, model, r1, s0) == Err::<
            (Seq<(Seq<char>, Term)>, Option<Term>),
            GraphError,
        >(x),
{
    lemma_run_body_reg(body, s, env0, model, r0, r1, s0, s0);
    let state = run_body(body, s, env0, model, r0, s0)->Ok_0;
    match body[s] {
        Statement::Let(_, e) => {
            lemma_expr_term_st(e, state.0, model, r1, s0, s1);
        },
        Statement::Value(e) => {
            lemma_expr_term_st(e, state.0, model, r1, s0, s1);
        },
    }
    lemma_run_body_err(body, s + 1, body.len() as int, env0, model, r1, s0, x);
}

pub proof fn lemma_keeps_refl(a: Registry)
    ensures
        keeps(a, a),
{
}

pub proof fn lemma_keeps_trans(a: Registry, b: Registry, c: Registry)
    requires
        keeps(a, b),
        keeps(b, c),
    ensures
        keeps(a, c),
{
    assert forall|j: int| 0 <= j < a.compiled().len() && #[trigger] a.compiled()[j] is Some implies c.compiled()[j]
        == a.compiled()[j] by {
        assert(b.compiled()[j] == a.compiled()[j]);
    }
    assert forall|j: int| 0 <= j < a.started().len() && #[trigger] a.started()[j] implies c.started()[j] by {
        assert(b.started()[j]);
    }
    assert forall|j: int|
        0 <= j < a.started().len() && a.started()[j] && #[trigger] a.compiled()[j] is None implies c.compiled()[j] is None by {
        assert(b.started()[j]);
        assert(b.compiled()[j] is None);
    }
}

} // verus!
