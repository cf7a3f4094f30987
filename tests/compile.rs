use exprgraph::compile::{Argument, Expr, Model, Registry, Statement, VariableGraph};
use exprgraph::constant::Constant;
use exprgraph::error::GraphError;
use exprgraph::gaussian::{self, Data, Mu, Parameters};
use exprgraph::graph::Graph;
use exprgraph::node::{BinaryOp, NodeType, UnaryOp, Variable};
use exprgraph::splice::Function;

fn value_of(c: &Constant) -> f64 {
    c.mantissa as f64 / 10f64.powi(c.scale as i32)
}

/// Evaluates node `h`, reading each variable's value by name.
fn eval(g: &Graph, h: usize, env: &[(&str, f64)]) -> f64 {
    match &g.node(h).interior {
        NodeType::Constant(c) => value_of(c),
        NodeType::Variable(v) => env.iter().find(|(n, _)| *n == v.name).map(|(_, x)| *x).unwrap(),
        NodeType::Unary(u) => {
            let a = eval(g, u.argument, env);
            match u.operation {
                UnaryOp::Negative => -a,
                UnaryOp::Exp => a.exp(),
                UnaryOp::Log => a.ln(),
                UnaryOp::Sin => a.sin(),
                UnaryOp::Cos => a.cos(),
                UnaryOp::Tan => a.tan(),
            }
        }
        NodeType::Binary(b) => {
            let l = eval(g, b.left, env);
            let r = eval(g, b.right, env);
            match b.operation {
                BinaryOp::Add => l + r,
                BinaryOp::Sub => l - r,
                BinaryOp::Mul => l * r,
                BinaryOp::Div => l / r,
                BinaryOp::Pow => l.powf(r),
            }
        }
        NodeType::Collection(_) => panic!("a collection has no value"),
    }
}

fn bin(g: &mut Graph, op: BinaryOp, l: usize, r: usize) -> usize {
    g.new_binary(op, l, r).unwrap()
}

fn name(s: &str) -> Expr {
    Expr::Name(s.to_string())
}

fn binary(op: BinaryOp, l: Expr, r: Expr) -> Expr {
    Expr::Binary(op, Box::new(l), Box::new(r))
}

fn scalar(name: &str) -> Argument {
    Argument { name: name.to_string(), record: None, parameter: true }
}

fn def(name: &str, args: &[&str], body: Vec<Statement>) -> exprgraph::compile::Function {
    exprgraph::compile::Function { name: name.to_string(), arguments: args.iter().map(|a| scalar(a)).collect(), body }
}

/// f(a, b) = a * b + sin(a)
fn helper() -> (Graph, Function) {
    let mut g = Graph::new();
    let a = g.new_variable("a".to_string(), true);
    let b = g.new_variable("b".to_string(), true);
    let ab = bin(&mut g, BinaryOp::Mul, a, b);
    let s = g.new_unary(UnaryOp::Sin, a);
    let r = bin(&mut g, BinaryOp::Add, ab, s);
    (g, Function { name: "f".to_string(), arguments: vec![a, b], result: r })
}

#[test]
fn splice_evaluates_as_the_substituted_body() {
    let (fg, f) = helper();
    let mut g = Graph::new();
    let x = g.new_variable("x".to_string(), true);
    let y = g.new_variable("y".to_string(), true);
    let one = g.new_constant(Constant::from_int(1));
    let x1 = bin(&mut g, BinaryOp::Add, x, one);
    let r = g.splice(&fg, &f, vec![x1, y]).unwrap();
    for (xv, yv) in [(0.2, 3.0), (-1.1, 0.5)] {
        let direct = (xv + 1.0) * yv + (xv + 1.0f64).sin();
        assert!((eval(&g, r, &[("x", xv), ("y", yv)]) - direct).abs() < 1e-12);
    }
}

#[test]
fn splice_simplifies_across_the_call() {
    let (fg, f) = helper();
    let mut g = Graph::new();
    let x = g.new_variable("x".to_string(), true);
    let zero = g.new_constant(Constant::from_int(0));
    // f(x, 0) = x * 0 + sin(x) = sin(x)
    let r = g.splice(&fg, &f, vec![x, zero]).unwrap();
    let sin_x = g.new_unary(UnaryOp::Sin, x);
    assert_eq!(r, sin_x);
}

#[test]
fn splice_checks_arity() {
    let (fg, f) = helper();
    let mut g = Graph::new();
    let x = g.new_variable("x".to_string(), true);
    assert_eq!(g.splice(&fg, &f, vec![x]), Err(GraphError::ArityMismatch));
    assert_eq!(f.validate_inputs(&vec![x]), Err(GraphError::ArityMismatch));
    assert_eq!(f.validate_inputs(&vec![x, x]), Ok(()));
}

#[test]
fn splice_rejects_a_free_variable() {
    let mut fg = Graph::new();
    let a = fg.new_variable("a".to_string(), true);
    let free = fg.new_variable("free".to_string(), true);
    let r = bin(&mut fg, BinaryOp::Mul, a, free);
    let f = Function { name: "f".to_string(), arguments: vec![a], result: r };
    let mut g = Graph::new();
    let x = g.new_variable("x".to_string(), true);
    assert_eq!(g.splice(&fg, &f, vec![x]), Err(GraphError::UndefinedReference));
}

#[test]
fn function_order_schedules_its_result() {
    let (fg, f) = helper();
    let order = f.order(&fg);
    assert_eq!(*order.last().unwrap(), f.result);
    assert_eq!(order.len(), fg.len());
}

#[test]
fn compute_derivatives_gives_gradient_and_hessian() {
    let mut g = Graph::new();
    let a = g.new_variable("a".to_string(), true);
    let b = g.new_variable("b".to_string(), true);
    let ab = bin(&mut g, BinaryOp::Mul, a, b);
    let r = bin(&mut g, BinaryOp::Mul, ab, a);
    let f = Function { name: "f".to_string(), arguments: vec![a, b], result: r };
    let d = f.compute_derivatives(&mut g).unwrap();
    assert_eq!(d.gradient.len(), 2);
    assert_eq!(d.hessian.len(), 3);
    let env = [("a", 1.5), ("b", -2.0)];
    // f = a^2 b: gradient (2ab, a^2), Hessian (2b, 2a, 0)
    assert!((eval(&g, d.gradient[0], &env) - 2.0 * 1.5 * -2.0).abs() < 1e-12);
    assert!((eval(&g, d.gradient[1], &env) - 2.25).abs() < 1e-12);
    assert!((eval(&g, d.hessian[0], &env) - -4.0).abs() < 1e-12);
    assert!((eval(&g, d.hessian[1], &env) - 3.0).abs() < 1e-12);
    assert!(eval(&g, d.hessian[2], &env).abs() < 1e-12);
    assert!(matches!(g.node(d.value_gradient).interior, NodeType::Collection(_)));
    assert_eq!(g.children_of(d.value_gradient_hessian).len(), 3);
    assert_eq!(g.children_of(d.value_gradient)[0], r);
}

#[test]
fn compute_derivatives_needs_variable_arguments() {
    let mut g = Graph::new();
    let a = g.new_variable("a".to_string(), true);
    let two = g.new_constant(Constant::from_int(2));
    let r = bin(&mut g, BinaryOp::Mul, a, a);
    let f = Function { name: "f".to_string(), arguments: vec![a, two], result: r };
    assert_eq!(f.compute_derivatives(&mut g).map(|d| d.gradient.len()), Err(GraphError::UnsupportedDifferentiation));
}

#[test]
fn gaussian_example_builds_the_density() {
    let mut g = Graph::new();
    let mu = g.new_variable("parameters.mu.mu".to_string(), true);
    let sigma = g.new_variable("parameters.sigma".to_string(), true);
    let x = g.new_variable("data.x".to_string(), false);
    let parameters = Parameters { mu: Mu { mu }, sigma };
    let data = Data { x };
    let d = gaussian::distribution(&mut g, &parameters, &data).unwrap();
    let env = [("parameters.mu.mu", 0.5), ("parameters.sigma", 1.2), ("data.x", 1.1)];
    let z: f64 = (1.1 - 0.5) / 1.2;
    let expected = (-0.5 * z * z).exp() * (1.0 / (2.0 * 3.1415926535 * 1.2));
    assert!((eval(&g, d, &env) - expected).abs() < 1e-12);
    let n = gaussian::n(&mut g, sigma);
    assert!((eval(&g, n, &env) - 2.0 * 3.1415926535 * 1.2).abs() < 1e-12);
    let norm = gaussian::norm(&mut g, sigma).unwrap();
    assert!((eval(&g, norm, &env) - 1.0 / (2.0 * 3.1415926535 * 1.2)).abs() < 1e-12);
}

#[test]
fn gaussian_norm_of_zero_divides_by_zero() {
    let mut g = Graph::new();
    let zero = g.new_constant(Constant::from_int(0));
    assert_eq!(gaussian::norm(&mut g, zero), Err(GraphError::DivisionByZero));
}

#[test]
fn add_adds() {
    assert_eq!(gaussian::add(2, 3), 5);
}

fn compile(model: &Model, registry: &mut Registry, function: &str) -> usize {
    let j = model.find_function(&function.to_string()).unwrap();
    registry.build_graph(model, j).unwrap();
    j
}

#[test]
fn gaussian_model_compiles_and_differentiates() {
    let model = gaussian::model();
    let mut registry = Registry::new(&model);
    let j = compile(&model, &mut registry, "distribution");
    // Helpers referenced from the body are compiled on the way.
    assert!(registry.get(model.find_function(&"n".to_string()).unwrap()).is_some());
    assert!(registry.get(model.find_function(&"norm".to_string()).unwrap()).is_some());
    let compiled = registry.get(j).unwrap();
    let mut g = Graph::new();
    let mut graph_of = |h: usize| h;
    let _ = &mut graph_of;
    let _ = &mut g;
    let f = &compiled.function;
    let fg = &compiled.graph;
    // Arguments: parameters.mu.mu, parameters.sigma, data.x
    let names: Vec<String> = f
        .arguments
        .iter()
        .map(|&h| match &fg.node(h).interior {
            NodeType::Variable(v) => v.name.clone(),
            _ => panic!("argument is not a variable"),
        })
        .collect();
    assert_eq!(names, vec!["parameters.mu.mu", "parameters.sigma", "data.x"]);
    let env = [("parameters.mu.mu", -0.3), ("parameters.sigma", 0.8), ("data.x", 0.4)];
    let z: f64 = (0.4 + 0.3) / 0.8;
    let expected = (-0.5 * z * z).exp() / (2.0 * 3.1415926535 * 0.8);
    assert!((eval(fg, f.result, &env) - expected).abs() < 1e-12);

    let mut g2 = Graph::new();
    let mu = g2.new_variable("mu".to_string(), true);
    let sigma = g2.new_variable("sigma".to_string(), true);
    let x = g2.new_constant(Constant::new(4, 1).unwrap());
    let value = g2.splice(fg, f, vec![mu, sigma, x]).unwrap();
    let grad = g2
        .gradient(value, &vec![Variable::new("mu".to_string(), true), Variable::new("sigma".to_string(), true)])
        .unwrap();
    let at = [-0.3, 0.8];
    let step = 1e-5;
    for i in 0..2 {
        let mut up = at;
        let mut down = at;
        up[i] += step;
        down[i] -= step;
        let ev = |p: [f64; 2]| eval(&g2, value, &[("mu", p[0]), ("sigma", p[1])]);
        let numeric = (ev(up) - ev(down)) / (2.0 * step);
        let symbolic = eval(&g2, grad[i], &[("mu", at[0]), ("sigma", at[1])]);
        assert!((numeric - symbolic).abs() < 1e-6, "{} {} {}", i, numeric, symbolic);
    }
}

#[test]
fn nested_helpers_splice_like_the_inlined_body() {
    // sq(a) = a * a; poly(b) = sq(b + 1.0) - sq(b); top(x) = poly(x) * 2.0
    let model = Model {
        structs: vec![],
        functions: vec![
            def("sq", &["a"], vec![Statement::Value(binary(BinaryOp::Mul, name("a"), name("a")))]),
            def(
                "poly",
                &["b"],
                vec![Statement::Value(binary(
                    BinaryOp::Sub,
                    Expr::Call("sq".to_string(), vec![binary(BinaryOp::Add, name("b"), Expr::Constant(Constant::from_int(1)))]),
                    Expr::Call("sq".to_string(), vec![name("b")]),
                ))],
            ),
            def(
                "top",
                &["x"],
                vec![Statement::Value(binary(
                    BinaryOp::Mul,
                    Expr::Call("poly".to_string(), vec![name("x")]),
                    Expr::Constant(Constant::from_int(2)),
                ))],
            ),
        ],
    };
    let mut registry = Registry::new(&model);
    let j = compile(&model, &mut registry, "top");
    let c = registry.get(j).unwrap();
    for xv in [-2.0, 0.0, 1.5] {
        let direct = ((xv + 1.0) * (xv + 1.0) - xv * xv) * 2.0;
        assert!((eval(&c.graph, c.function.result, &[("x", xv)]) - direct).abs() < 1e-12);
    }
}

#[test]
fn recursive_definition_is_rejected() {
    let model = Model {
        structs: vec![],
        functions: vec![
            def("f", &["a"], vec![Statement::Value(Expr::Call("g".to_string(), vec![name("a")]))]),
            def("g", &["b"], vec![Statement::Value(Expr::Call("f".to_string(), vec![name("b")]))]),
        ],
    };
    let mut registry = Registry::new(&model);
    assert_eq!(registry.build_graph(&model, 0), Err(GraphError::RecursiveDefinition));
    assert!(registry.get(0).is_none());
}

#[test]
fn undefined_names_are_rejected() {
    let model = Model {
        structs: vec![],
        functions: vec![
            def("f", &["a"], vec![Statement::Value(binary(BinaryOp::Add, name("a"), name("b")))]),
            def("g", &["a"], vec![Statement::Value(Expr::Call("h".to_string(), vec![name("a")]))]),
        ],
    };
    let mut registry = Registry::new(&model);
    assert_eq!(registry.build_graph(&model, 0), Err(GraphError::UndefinedReference));
    assert_eq!(registry.build_graph(&model, 1), Err(GraphError::UndefinedReference));
}

#[test]
fn call_with_wrong_arity_is_rejected() {
    let model = Model {
        structs: vec![],
        functions: vec![
            def("sq", &["a"], vec![Statement::Value(binary(BinaryOp::Mul, name("a"), name("a")))]),
            def("f", &["x"], vec![Statement::Value(Expr::Call("sq".to_string(), vec![name("x"), name("x")]))]),
        ],
    };
    let mut registry = Registry::new(&model);
    assert_eq!(registry.build_graph(&model, 1), Err(GraphError::ArityMismatch));
}

#[test]
fn body_without_value_is_rejected() {
    let model = Model {
        structs: vec![],
        functions: vec![def("f", &["a"], vec![Statement::Let("b".to_string(), name("a"))])],
    };
    let mut registry = Registry::new(&model);
    assert_eq!(registry.build_graph(&model, 0), Err(GraphError::MissingResult));
}

#[test]
fn let_bindings_shadow_and_records_flatten() {
    let model = Model {
        structs: vec![VariableGraph { name: "P".to_string(), subgraphs: vec![("u".to_string(), None), ("v".to_string(), None)] }],
        functions: vec![exprgraph::compile::Function {
            name: "f".to_string(),
            arguments: vec![Argument { name: "p".to_string(), record: Some(0), parameter: true }],
            body: vec![
                Statement::Let("t".to_string(), name("p.u")),
                Statement::Let("t".to_string(), binary(BinaryOp::Mul, name("t"), name("p.v"))),
                Statement::Value(name("t")),
            ],
        }],
    };
    let mut registry = Registry::new(&model);
    registry.build_graph(&model, 0).unwrap();
    let c = registry.get(0).unwrap();
    assert_eq!(c.function.arguments.len(), 2);
    assert!((eval(&c.graph, c.function.result, &[("p.u", 3.0), ("p.v", 4.0)]) - 12.0).abs() < 1e-12);
    // Compiling again reuses the cached graph.
    let len = c.graph.len();
    registry.build_graph(&model, 0).unwrap();
    assert_eq!(registry.get(0).unwrap().graph.len(), len);
}

#[test]
fn splice_with_wrong_arity_leaves_the_store_unchanged() {
    let (fg, f) = helper();
    let mut g = Graph::new();
    let x = g.new_variable("x".to_string(), true);
    let len = g.len();
    assert_eq!(g.splice(&fg, &f, vec![x, x, x]), Err(GraphError::ArityMismatch));
    assert_eq!(g.len(), len);
}

#[test]
fn splice_onto_the_same_nodes_adds_nothing_new() {
    let (fg, f) = helper();
    let mut g = Graph::new();
    let a = g.new_variable("a".to_string(), true);
    let b = g.new_variable("b".to_string(), true);
    let first = g.splice(&fg, &f, vec![a, b]).unwrap();
    let len = g.len();
    let second = g.splice(&fg, &f, vec![a, b]).unwrap();
    assert_eq!(first, second);
    assert_eq!(g.len(), len);
}

#[test]
fn schedule_follows_roots_in_order() {
    let mut g = Graph::new();
    let x = g.new_variable("x".to_string(), true);
    let y = g.new_variable("y".to_string(), true);
    let s = g.new_unary(UnaryOp::Sin, y);
    let c = g.new_unary(UnaryOp::Cos, x);
    let sum = bin(&mut g, BinaryOp::Add, s, c);
    // The second root is reached first through the first root.
    assert_eq!(g.order(&vec![c, sum]), vec![x, c, y, s, sum]);
    assert_eq!(g.order(&vec![sum, c]), vec![y, s, x, c, sum]);
}

#[test]
fn failing_callee_error_is_the_callers() {
    let model = Model {
        structs: vec![],
        functions: vec![
            def("bad", &["a"], vec![Statement::Value(binary(BinaryOp::Div, name("a"), Expr::Constant(Constant::from_int(0))))]),
            def("f", &["x"], vec![Statement::Value(Expr::Call("bad".to_string(), vec![name("x")]))]),
        ],
    };
    let mut registry = Registry::new(&model);
    assert_eq!(registry.build_graph(&model, 1), Err(GraphError::DivisionByZero));
    assert!(registry.get(1).is_none());
    assert!(registry.get(0).is_none());
}
