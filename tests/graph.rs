use exprgraph::constant::Constant;
use exprgraph::error::GraphError;
use exprgraph::graph::Graph;
use exprgraph::node::{Array, BinaryOp, Collection, Node, NodeType, Tuple, UnaryOp, Variable};

fn value_of(c: &Constant) -> f64 {
    c.mantissa as f64 / 10f64.powi(c.scale as i32)
}

/// Evaluates node `h` numerically; `params` and `data` are indexed by the
/// variables' assigned indices.
fn eval(g: &Graph, h: usize, params: &[f64], data: &[f64]) -> f64 {
    match &g.node(h).interior {
        NodeType::Constant(c) => value_of(c),
        NodeType::Variable(v) => {
            if v.parameter {
                params[v.index]
            } else {
                data[v.index]
            }
        }
        NodeType::Unary(u) => {
            let a = eval(g, u.argument, params, data);
            match u.operation {
                UnaryOp::Negative => -a,
                UnaryOp::Exp => a.exp(),
                UnaryOp::Log => a.ln(),
                UnaryOp::Sin => a.sin(),
                UnaryOp::Cos => a.cos(),
                UnaryOp::Tan => a.tan(),
            }
        }
        NodeType::Binary(b) => {
            let l = eval(g, b.left, params, data);
            let r = eval(g, b.right, params, data);
            match b.operation {
                BinaryOp::Add => l + r,
                BinaryOp::Sub => l - r,
                BinaryOp::Mul => l * r,
                BinaryOp::Div => l / r,
                BinaryOp::Pow => l.powf(r),
            }
        }
        NodeType::Collection(_) => panic!("a collection has no value"),
    }
}

fn constant(g: &mut Graph, m: i64, s: u32) -> usize {
    g.new_constant(Constant::new(m, s).unwrap())
}

fn var(name: &str) -> Variable {
    Variable::new(name.to_string(), true)
}

fn bin(g: &mut Graph, op: BinaryOp, l: usize, r: usize) -> usize {
    g.new_binary(op, l, r).unwrap()
}

/// Central finite difference of node `h` in parameter `i`.
fn finite_difference(g: &Graph, h: usize, params: &[f64], i: usize) -> f64 {
    let step = 1e-5;
    let mut up = params.to_vec();
    let mut down = params.to_vec();
    up[i] += step;
    down[i] -= step;
    (eval(g, h, &up, &[]) - eval(g, h, &down, &[])) / (2.0 * step)
}

fn check_derivative(g: &mut Graph, f: usize, name: &str, params: &[f64], i: usize) {
    let d = g.differentiate(f, &var(name)).unwrap();
    let symbolic = eval(g, d, params, &[]);
    let numeric = finite_difference(g, f, params, i);
    assert!((symbolic - numeric).abs() < 1e-6 * (1.0 + numeric.abs()), "{} vs {}", symbolic, numeric);
}

#[test]
fn structurally_equal_expressions_share_one_node() {
    let mut g = Graph::new();
    let x = g.new_variable("x".to_string(), true);
    let y = g.new_variable("y".to_string(), true);
    let a = bin(&mut g, BinaryOp::Mul, x, y);
    let s = g.new_unary(UnaryOp::Sin, a);
    let len = g.len();
    let x2 = g.new_variable("x".to_string(), true);
    let y2 = g.new_variable("y".to_string(), true);
    let b = bin(&mut g, BinaryOp::Mul, x2, y2);
    let s2 = g.new_unary(UnaryOp::Sin, b);
    assert_eq!(x, x2);
    assert_eq!(a, b);
    assert_eq!(s, s2);
    assert_eq!(g.len(), len);
}

#[test]
fn insert_returns_existing_node() {
    let mut g = Graph::new();
    let c = constant(&mut g, 3, 0);
    let len = g.len();
    let node = Node::new(&g, NodeType::Constant(Constant::new(30, 1).unwrap()));
    let h = g.insert(node);
    assert_eq!(h, c);
    assert_eq!(g.len(), len);
}

#[test]
fn x_plus_zero_is_x() {
    let mut g = Graph::new();
    let x = g.new_variable("x".to_string(), true);
    let zero = constant(&mut g, 0, 0);
    assert_eq!(g.new_binary(BinaryOp::Add, x, zero), Ok(x));
    assert_eq!(g.new_binary(BinaryOp::Add, zero, x), Ok(x));
}

#[test]
fn multiplying_by_one_gives_the_operand() {
    let mut g = Graph::new();
    let x = g.new_variable("x".to_string(), true);
    let one = constant(&mut g, 1, 0);
    assert_eq!(g.new_binary(BinaryOp::Mul, x, one), Ok(x));
    assert_eq!(g.new_binary(BinaryOp::Mul, one, x), Ok(x));
}

#[test]
fn subtraction_rules() {
    let mut g = Graph::new();
    let x = g.new_variable("x".to_string(), true);
    let zero = constant(&mut g, 0, 0);
    assert_eq!(g.new_binary(BinaryOp::Sub, x, zero), Ok(x));
    let minus_x = g.new_unary(UnaryOp::Negative, x);
    assert_eq!(g.new_binary(BinaryOp::Sub, zero, x), Ok(minus_x));
    assert_eq!(g.new_binary(BinaryOp::Sub, x, x), Ok(zero));
}

#[test]
fn multiplication_rules() {
    let mut g = Graph::new();
    let x = g.new_variable("x".to_string(), true);
    let zero = constant(&mut g, 0, 0);
    let minus_one = constant(&mut g, -1, 0);
    let minus_x = g.new_unary(UnaryOp::Negative, x);
    assert_eq!(g.new_binary(BinaryOp::Mul, zero, x), Ok(zero));
    assert_eq!(g.new_binary(BinaryOp::Mul, x, zero), Ok(zero));
    assert_eq!(g.new_binary(BinaryOp::Mul, minus_one, x), Ok(minus_x));
    assert_eq!(g.new_binary(BinaryOp::Mul, x, minus_one), Ok(minus_x));
}

#[test]
fn division_rules() {
    let mut g = Graph::new();
    let x = g.new_variable("x".to_string(), true);
    let zero = constant(&mut g, 0, 0);
    let one = constant(&mut g, 1, 0);
    let minus_one = constant(&mut g, -1, 0);
    let minus_x = g.new_unary(UnaryOp::Negative, x);
    assert_eq!(g.new_binary(BinaryOp::Div, zero, x), Ok(zero));
    assert_eq!(g.new_binary(BinaryOp::Div, x, one), Ok(x));
    assert_eq!(g.new_binary(BinaryOp::Div, x, minus_one), Ok(minus_x));
    assert_eq!(g.new_binary(BinaryOp::Div, x, zero), Err(GraphError::DivisionByZero));
    assert_eq!(g.new_binary(BinaryOp::Div, zero, zero), Ok(zero));
}

#[test]
fn derived_zero_divisor_is_caught_after_simplification() {
    let mut g = Graph::new();
    let x = g.new_variable("x".to_string(), true);
    let a = g.new_variable("a".to_string(), true);
    let a_minus_a = bin(&mut g, BinaryOp::Sub, a, a);
    assert_eq!(g.new_binary(BinaryOp::Div, x, a_minus_a), Err(GraphError::DivisionByZero));
}

#[test]
fn power_rules() {
    let mut g = Graph::new();
    let x = g.new_variable("x".to_string(), true);
    let zero = constant(&mut g, 0, 0);
    let one = constant(&mut g, 1, 0);
    let two = constant(&mut g, 2, 0);
    assert_eq!(g.new_binary(BinaryOp::Pow, zero, x), Ok(zero));
    assert_eq!(g.new_binary(BinaryOp::Pow, x, zero), Ok(one));
    assert_eq!(g.new_binary(BinaryOp::Pow, x, one), Ok(x));
    let square = bin(&mut g, BinaryOp::Mul, x, x);
    assert_eq!(g.new_binary(BinaryOp::Pow, x, two), Ok(square));
    let three = constant(&mut g, 3, 0);
    let cube = bin(&mut g, BinaryOp::Pow, x, three);
    assert!(matches!(g.node(cube).interior, NodeType::Binary(_)));
}

#[test]
fn unary_rules() {
    let mut g = Graph::new();
    let x = g.new_variable("x".to_string(), true);
    let minus_x = g.new_unary(UnaryOp::Negative, x);
    assert_eq!(g.new_unary(UnaryOp::Negative, minus_x), x);
    let log = g.new_unary(UnaryOp::Log, x);
    assert_eq!(g.new_unary(UnaryOp::Exp, log), x);
    let exp = g.new_unary(UnaryOp::Exp, x);
    assert_eq!(g.new_unary(UnaryOp::Log, exp), x);
    let c = constant(&mut g, 25, 1);
    let minus_c = g.new_unary(UnaryOp::Negative, c);
    match &g.node(minus_c).interior {
        NodeType::Constant(k) => assert_eq!((k.mantissa, k.scale), (-25, 1)),
        _ => panic!("negated constant is not a constant"),
    }
}

#[test]
fn constants_are_normalised() {
    let c = Constant::new(2500, 3).unwrap();
    assert_eq!((c.mantissa, c.scale), (25, 1));
    let z = Constant::new(0, 4).unwrap();
    assert_eq!((z.mantissa, z.scale), (0, 0));
    assert_eq!(Constant::new(1, 19), Err(GraphError::ConstantOutOfRange));
    assert_eq!(Constant::new(i64::MIN, 0), Err(GraphError::ConstantOutOfRange));
}

#[test]
fn constant_decrement() {
    let c = Constant::new(25, 1).unwrap();
    let d = c.decrement().unwrap();
    assert_eq!((d.mantissa, d.scale), (15, 1));
    let big = Constant::new(i64::MIN + 1, 0).unwrap();
    assert_eq!(big.decrement(), Err(GraphError::ConstantOutOfRange));
}

#[test]
fn operator_costs() {
    assert_eq!(BinaryOp::Add.cost(), 3);
    assert_eq!(BinaryOp::Sub.cost(), 3);
    assert_eq!(BinaryOp::Mul.cost(), 5);
    assert_eq!(BinaryOp::Div.cost(), 20);
    assert_eq!(BinaryOp::Pow.cost(), 100);
    assert_eq!(UnaryOp::Negative.cost(), 3);
    assert_eq!(UnaryOp::Exp.cost(), 100);
    assert_eq!(UnaryOp::Log.cost(), 100);
    assert_eq!(UnaryOp::Sin.cost(), 100);
    assert_eq!(UnaryOp::Cos.cost(), 100);
    assert_eq!(UnaryOp::Tan.cost(), 100);
}

#[test]
fn node_flags_and_cost() {
    let mut g = Graph::new();
    let p = g.new_variable("p".to_string(), true);
    let d = g.new_variable("d".to_string(), false);
    let prod = bin(&mut g, BinaryOp::Mul, p, d);
    let s = g.new_unary(UnaryOp::Sin, prod);
    let n = g.node(s);
    assert!(n.parameters);
    assert!(n.data);
    assert_eq!(n.cost, 1 + 1 + 5 + 100);
    let c = constant(&mut g, 5, 0);
    let sum = bin(&mut g, BinaryOp::Add, c, d);
    assert!(!g.node(sum).parameters);
    assert!(g.node(sum).data);
}

#[test]
fn variable_indices_follow_first_creation() {
    let mut g = Graph::new();
    let a = g.new_variable("a".to_string(), true);
    let x = g.new_variable("x".to_string(), false);
    let b = g.new_variable("b".to_string(), true);
    let a2 = g.new_variable("a".to_string(), true);
    let a_data = g.new_variable("a".to_string(), false);
    let index = |h: usize| match &g.node(h).interior {
        NodeType::Variable(v) => v.index,
        _ => panic!("not a variable"),
    };
    assert_eq!(index(a), 0);
    assert_eq!(index(b), 1);
    assert_eq!(index(x), 0);
    assert_eq!(a2, a);
    assert_ne!(a_data, a);
    assert_eq!(index(a_data), 1);
}

#[test]
fn variables_compare_by_name_and_role() {
    let a = Variable { name: "a".to_string(), parameter: true, index: 0 };
    let b = Variable { name: "a".to_string(), parameter: true, index: 7 };
    let c = Variable { name: "a".to_string(), parameter: false, index: 0 };
    assert!(a == b);
    assert!(a != c);
}

#[test]
fn derivative_of_each_operator_matches_finite_differences() {
    let mut g = Graph::new();
    let x = g.new_variable("x".to_string(), true);
    let y = g.new_variable("y".to_string(), true);
    let params = [0.7, 1.3];
    let mut exprs = Vec::new();
    for op in [UnaryOp::Negative, UnaryOp::Exp, UnaryOp::Log, UnaryOp::Sin, UnaryOp::Cos, UnaryOp::Tan] {
        let xy = bin(&mut g, BinaryOp::Mul, x, y);
        exprs.push(g.new_unary(op, xy));
    }
    for op in [BinaryOp::Add, BinaryOp::Sub, BinaryOp::Mul, BinaryOp::Div] {
        exprs.push(bin(&mut g, op, x, y));
    }
    let c = constant(&mut g, 25, 1);
    exprs.push(bin(&mut g, BinaryOp::Pow, x, c));
    for f in exprs {
        check_derivative(&mut g, f, "x", &params, 0);
        check_derivative(&mut g, f, "y", &params, 1);
    }
}

#[test]
fn derivative_of_sin_of_square() {
    let mut g = Graph::new();
    let x = g.new_variable("x".to_string(), true);
    let xx = bin(&mut g, BinaryOp::Mul, x, x);
    let f = g.new_unary(UnaryOp::Sin, xx);
    let d = g.differentiate(f, &var("x")).unwrap();
    for v in [-1.5f64, 0.3, 2.0] {
        let expected = 2.0 * v * (v * v).cos();
        assert!((eval(&g, d, &[v], &[]) - expected).abs() < 1e-12);
    }
    check_derivative(&mut g, f, "x", &[0.9], 0);
}

#[test]
fn derivative_of_variable_and_constant() {
    let mut g = Graph::new();
    let x = g.new_variable("x".to_string(), true);
    let y = g.new_variable("y".to_string(), true);
    let c = constant(&mut g, 7, 0);
    let zero = constant(&mut g, 0, 0);
    let one = constant(&mut g, 1, 0);
    assert_eq!(g.differentiate(x, &var("x")), Ok(one));
    assert_eq!(g.differentiate(y, &var("x")), Ok(zero));
    assert_eq!(g.differentiate(c, &var("x")), Ok(zero));
    let data_x = Variable::new("x".to_string(), false);
    assert_eq!(g.differentiate(x, &data_x), Ok(zero));
}

#[test]
fn non_constant_exponent_is_unsupported() {
    let mut g = Graph::new();
    let y = g.new_variable("y".to_string(), true);
    let two = constant(&mut g, 2, 0);
    let p = bin(&mut g, BinaryOp::Pow, two, y);
    assert_eq!(g.differentiate(p, &var("y")), Err(GraphError::UnsupportedDifferentiation));
}

#[test]
fn collection_is_not_differentiable() {
    let mut g = Graph::new();
    let x = g.new_variable("x".to_string(), true);
    let c = g.new_collection(Collection::Array(Array { elements: vec![x] }));
    assert_eq!(g.differentiate(c, &var("x")), Err(GraphError::UnsupportedDifferentiation));
    assert_eq!(g.gradient(c, &vec![var("x")]), Err(GraphError::InvalidRoot));
}

#[test]
fn gaussian_gradient_matches_finite_differences() {
    // exp(-0.5 * ((x - mu) / sigma)^2) / ((2 * pi)^0.5 * sigma)
    let mut g = Graph::new();
    let mu = g.new_variable("mu".to_string(), true);
    let sigma = g.new_variable("sigma".to_string(), true);
    let x = constant(&mut g, 13, 1);
    let diff = bin(&mut g, BinaryOp::Sub, x, mu);
    let q = bin(&mut g, BinaryOp::Div, diff, sigma);
    let two = constant(&mut g, 2, 0);
    let sq = bin(&mut g, BinaryOp::Pow, q, two);
    let minus_half = constant(&mut g, -5, 1);
    let e = bin(&mut g, BinaryOp::Mul, minus_half, sq);
    let num = g.new_unary(UnaryOp::Exp, e);
    let pi = constant(&mut g, 3141592653589793, 15);
    let two_pi = bin(&mut g, BinaryOp::Mul, two, pi);
    let half = constant(&mut g, 5, 1);
    let root = bin(&mut g, BinaryOp::Pow, two_pi, half);
    let den = bin(&mut g, BinaryOp::Mul, root, sigma);
    let f = bin(&mut g, BinaryOp::Div, num, den);
    let grad = g.gradient(f, &vec![var("mu"), var("sigma")]).unwrap();
    assert_eq!(grad.len(), 2);
    let params = [0.4, 1.7];
    for i in 0..2 {
        let symbolic = eval(&g, grad[i], &params, &[]);
        let numeric = finite_difference(&g, f, &params, i);
        assert!((symbolic - numeric).abs() < 1e-6, "{}: {} vs {}", i, symbolic, numeric);
    }
}

#[test]
fn hessian_is_symmetric() {
    let mut g = Graph::new();
    let a = g.new_variable("a".to_string(), true);
    let b = g.new_variable("b".to_string(), true);
    let c = g.new_variable("c".to_string(), true);
    let ab = bin(&mut g, BinaryOp::Mul, a, b);
    let s = g.new_unary(UnaryOp::Sin, ab);
    let bc = bin(&mut g, BinaryOp::Div, b, c);
    let e = g.new_unary(UnaryOp::Exp, bc);
    let sum = bin(&mut g, BinaryOp::Add, s, e);
    let f = bin(&mut g, BinaryOp::Mul, sum, a);
    let vars = vec![var("a"), var("b"), var("c")];
    let grad = g.gradient(f, &vars).unwrap();
    let hess = g.hessian(&grad, &vars).unwrap();
    assert_eq!(hess.len(), 6);
    let params = [0.3, -0.8, 1.9];
    // Lower entries come from differentiating gradient[i] by a later variable.
    let mut full = [[0.0f64; 3]; 3];
    let mut k = 0;
    for i in 0..3 {
        for j in i..3 {
            full[i][j] = eval(&g, hess[k], &params, &[]);
            k += 1;
        }
    }
    for i in 0..3 {
        for j in 0..i {
            let lower = g.differentiate(grad[i], &vars[j]).unwrap();
            full[i][j] = eval(&g, lower, &params, &[]);
        }
    }
    for i in 0..3 {
        for j in 0..3 {
            assert!((full[i][j] - full[j][i]).abs() < 1e-9, "{} {}", i, j);
        }
    }
}

#[test]
fn schedule_lists_each_node_once_after_its_children() {
    let mut g = Graph::new();
    let x = g.new_variable("x".to_string(), true);
    let y = g.new_variable("y".to_string(), true);
    let xy = bin(&mut g, BinaryOp::Mul, x, y);
    let s = g.new_unary(UnaryOp::Sin, xy);
    let t = bin(&mut g, BinaryOp::Add, s, x);
    let u = bin(&mut g, BinaryOp::Sub, xy, y);
    let _unrelated = g.new_variable("z".to_string(), true);
    let order = g.order(&vec![t, u, s]);
    assert_eq!(order.len(), 6);
    for (k, &h) in order.iter().enumerate() {
        assert_eq!(order.iter().filter(|&&o| o == h).count(), 1);
        for c in g.children_of(h) {
            let pos = order.iter().position(|&o| o == c).unwrap();
            assert!(pos < k);
        }
    }
    assert_eq!(order, vec![x, y, xy, s, t, u]);
}

#[test]
fn plan_counts_variables_and_rejects_collections() {
    let mut g = Graph::new();
    let p = g.new_variable("p".to_string(), true);
    let q = g.new_variable("q".to_string(), true);
    let d = g.new_variable("d".to_string(), false);
    let pq = bin(&mut g, BinaryOp::Mul, p, q);
    let f = bin(&mut g, BinaryOp::Add, pq, d);
    let plan = g.plan(&vec![f]).unwrap();
    assert_eq!(plan.order.len(), 5);
    assert_eq!(plan.num_parameters, 2);
    assert_eq!(plan.num_data, 1);
    let t = g.new_collection(Collection::Tuple(Tuple { elements: vec![f, p] }));
    assert_eq!(g.plan(&vec![t]).map(|p| p.order.len()), Err(GraphError::InvalidRoot));
}

#[test]
fn negative_log_builds_minus_log() {
    let mut g = Graph::new();
    let x = g.new_variable("x".to_string(), true);
    let h = g.negative_log(x);
    assert!((eval(&g, h, &[2.5], &[]) + 2.5f64.ln()).abs() < 1e-12);
    let e = g.new_unary(UnaryOp::Exp, x);
    let minus_x = g.new_unary(UnaryOp::Negative, x);
    assert_eq!(g.negative_log(e), minus_x);
}

#[test]
fn decimal_literals_are_read_exactly() {
    let read = |t: &str| Constant::from_decimal(t.as_bytes()).map(|c| (c.mantissa, c.scale));
    assert_eq!(read("2.5"), Ok((25, 1)));
    assert_eq!(read("2.0"), Ok((2, 0)));
    assert_eq!(read("3.1415926535"), Ok((31415926535, 10)));
    assert_eq!(read("1e-3"), Ok((1, 3)));
    assert_eq!(read("31415e-4"), Ok((31415, 4)));
    assert_eq!(read("1.5E+2"), Ok((150, 0)));
    assert_eq!(read("1e3"), Ok((1000, 0)));
    assert_eq!(read("7."), Ok((7, 0)));
    assert_eq!(read("0.000"), Ok((0, 0)));
    assert_eq!(read("abc"), Err(GraphError::InvalidLiteral));
    assert_eq!(read(".5"), Err(GraphError::InvalidLiteral));
    assert_eq!(read("1e"), Err(GraphError::InvalidLiteral));
    assert_eq!(read("1.2.3"), Err(GraphError::InvalidLiteral));
    assert_eq!(read("99999999999999999999"), Err(GraphError::ConstantOutOfRange));
    assert_eq!(read("1e19"), Err(GraphError::ConstantOutOfRange));
    assert_eq!(read("1e99999"), Err(GraphError::ConstantOutOfRange));
    assert_eq!(read("1e-19"), Err(GraphError::ConstantOutOfRange));
}

#[test]
fn shared_subgraphs_are_differentiated_once() {
    // y0 = sin(x), y(k+1) = y(k) * y(k) + y(k): every level refers to the previous one twice.
    let mut g = Graph::new();
    let x = g.new_variable("x".to_string(), true);
    let mut y = g.new_unary(UnaryOp::Sin, x);
    for _ in 0..40 {
        let sq = bin(&mut g, BinaryOp::Mul, y, y);
        y = bin(&mut g, BinaryOp::Add, sq, y);
    }
    let before = g.len();
    let d = g.differentiate(y, &var("x")).unwrap();
    assert!(g.len() - before < 40 * 10);
    let d2 = g.differentiate(y, &var("x")).unwrap();
    assert_eq!(d, d2);
}
