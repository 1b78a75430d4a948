//! Tests for the scalar computation-graph engine: forward values, gradient
//! rules, accumulation under sharing, and the topological backward pass.

use scalargrad::value::{Graph, Oper, Value};

fn leaf(g: &mut Graph, x: f64) -> Value {
    Value::new(g, x.to_bits())
}

fn val(v: Value, g: &Graph) -> f64 {
    f64::from_bits(v.data(g))
}

fn grad(v: Value, g: &Graph) -> Option<f64> {
    v.grad(g).map(f64::from_bits)
}

#[test]
fn leaf_starts_unset() {
    let mut g = Graph::new();
    let a = leaf(&mut g, 3.0);
    assert_eq!(val(a, &g), 3.0);
    assert_eq!(a.grad(&g), None);
    assert!(matches!(a.op(&g), Oper::Leaf));
}

#[test]
fn add_forward() {
    let mut g = Graph::new();
    let a = leaf(&mut g, 1.25);
    let b = leaf(&mut g, 2.5);
    let c = a.add(&mut g, b);
    assert_eq!(val(c, &g), 3.75);
    assert!(matches!(c.op(&g), Oper::Add));
    assert_eq!(c.grad(&g), None);
}

#[test]
fn sub_forward() {
    let mut g = Graph::new();
    let a = leaf(&mut g, 5.0);
    let b = leaf(&mut g, 3.25);
    let c = a.sub(&mut g, b);
    assert_eq!(val(c, &g), 1.75);
    assert!(matches!(c.op(&g), Oper::Sub));
}

#[test]
fn mul_forward() {
    let mut g = Graph::new();
    let a = leaf(&mut g, 3.0);
    let b = leaf(&mut g, 4.0);
    let c = a.mul(&mut g, b);
    assert_eq!(val(c, &g), 12.0);
    assert!(matches!(c.op(&g), Oper::Mul));
}

#[test]
fn pow_forward() {
    let mut g = Graph::new();
    let a = leaf(&mut g, 2.0);
    let c = a.pow(&mut g, (3.0f64).to_bits());
    assert_eq!(val(c, &g), 8.0);
    assert!(matches!(c.op(&g), Oper::Pow(e) if e == (3.0f64).to_bits()));
}

#[test]
fn tanh_forward() {
    let mut g = Graph::new();
    let a = leaf(&mut g, 0.0);
    let c = a.tanh(&mut g);
    assert_eq!(val(c, &g), 0.0);
    assert!(matches!(c.op(&g), Oper::Tanh));

    let b = leaf(&mut g, 0.5);
    let d = b.tanh(&mut g);
    assert!((val(d, &g) - 0.46211715726000974).abs() < 1e-12);
}

#[test]
fn neg_forward() {
    let mut g = Graph::new();
    let a = leaf(&mut g, 2.5);
    let c = a.neg(&mut g);
    assert_eq!(val(c, &g), -2.5);
}

#[test]
fn div_forward() {
    let mut g = Graph::new();
    let a = leaf(&mut g, 6.0);
    let b = leaf(&mut g, 2.0);
    let c = a.div(&mut g, b);
    assert_eq!(val(c, &g), 3.0);
    // Division is not a primitive: it is multiplication by b^(-1).
    assert!(matches!(c.op(&g), Oper::Mul));
}

#[test]
fn const_variants() {
    let mut g = Graph::new();
    let a = leaf(&mut g, 2.0);
    let s = a.add_const(&mut g, (3.0f64).to_bits());
    assert_eq!(val(s, &g), 5.0);
    let d = a.sub_const(&mut g, (0.5f64).to_bits());
    assert_eq!(val(d, &g), 1.5);
    let m = a.mul_const(&mut g, (4.0f64).to_bits());
    assert_eq!(val(m, &g), 8.0);
    let q = a.div_const(&mut g, (2.0f64).to_bits());
    assert_eq!(val(q, &g), 1.0);
}

#[test]
fn backprop_add_sub() {
    // f = (x + y) - z: df/dx = 1, df/dy = 1, df/dz = -1.
    let mut g = Graph::new();
    let x = leaf(&mut g, 2.0);
    let y = leaf(&mut g, 3.0);
    let z = leaf(&mut g, 4.0);
    let s = x.add(&mut g, y);
    let f = s.sub(&mut g, z);
    f.backprop(&mut g);
    assert_eq!(grad(f, &g), Some(1.0));
    assert_eq!(grad(x, &g), Some(1.0));
    assert_eq!(grad(y, &g), Some(1.0));
    assert_eq!(grad(z, &g), Some(-1.0));
}

#[test]
fn backprop_mul() {
    // f = x * y: df/dx = y, df/dy = x.
    let mut g = Graph::new();
    let x = leaf(&mut g, 3.0);
    let y = leaf(&mut g, 5.0);
    let f = x.mul(&mut g, y);
    f.backprop(&mut g);
    assert_eq!(grad(x, &g), Some(5.0));
    assert_eq!(grad(y, &g), Some(3.0));
}

#[test]
fn backprop_pow() {
    // f = x^3: df/dx = 3 * x^2 = 12 at x = 2.
    let mut g = Graph::new();
    let x = leaf(&mut g, 2.0);
    let f = x.pow(&mut g, (3.0f64).to_bits());
    f.backprop(&mut g);
    assert_eq!(grad(x, &g), Some(12.0));
}

#[test]
fn backprop_tanh() {
    // f = tanh(x): df/dx = 1 - tanh(x)^2.
    let mut g = Graph::new();
    let x = leaf(&mut g, 0.7);
    let f = x.tanh(&mut g);
    f.backprop(&mut g);
    let t = val(f, &g);
    let expected = 1.0 - t * t;
    assert_eq!(grad(x, &g), Some(expected));
}

#[test]
fn accumulation_under_sharing() {
    // c = (a * a) + a with a = 3.0: the two paths through `a` must sum,
    // giving 2 * a + 1 = 7, not 2 * a and not 1.
    let mut g = Graph::new();
    let a = leaf(&mut g, 3.0);
    let sq = a.mul(&mut g, a);
    let c = sq.add(&mut g, a);
    c.backprop(&mut g);
    assert_eq!(grad(a, &g), Some(7.0));
    assert_eq!(val(c, &g), 12.0);
}

#[test]
fn diamond_topological_order() {
    // a feeds two independent ops, which both feed the root:
    //   b = a + a, c = a * a, root = b * c = 2a^3, so droot/da = 6a^2.
    // The gradient of b and of c must be fully accumulated before either
    // pushes gradient back into a.
    let mut g = Graph::new();
    let a = leaf(&mut g, 1.5);
    let b = a.add(&mut g, a);
    let c = a.mul(&mut g, a);
    let root = b.mul(&mut g, c);
    root.backprop(&mut g);
    assert_eq!(val(root, &g), 6.75);
    assert_eq!(grad(b, &g), Some(2.25)); // c's value
    assert_eq!(grad(c, &g), Some(3.0)); // b's value
    assert_eq!(grad(a, &g), Some(13.5)); // 6 * 1.5^2
}

#[test]
fn pow_identity_gradient() {
    // pow(x, 1.0) behaves as the identity: d/dx = 1, whatever x is.
    for &x in &[2.0f64, 3.5, 0.7, -4.25] {
        let mut g = Graph::new();
        let a = leaf(&mut g, x);
        let f = a.pow(&mut g, (1.0f64).to_bits());
        f.backprop(&mut g);
        assert_eq!(val(f, &g), x);
        assert_eq!(grad(a, &g), Some(1.0));
    }
}

#[test]
fn finite_difference_gradients() {
    // The analytic gradient of each leaf matches a centered finite
    // difference within 1e-4, for products, sums, powers, tanh and a
    // composition of them.
    let h = 1e-5;
    let x0 = 0.8;
    let y0 = -0.6;

    // f(x, y) = x * y
    let f = |x: f64, y: f64| x * y;
    check_fd_xy(f, x0, y0, h, |g, x, y| {
        let xv = Value::new(g, x.to_bits());
        let yv = Value::new(g, y.to_bits());
        (xv, yv, xv.mul(g, yv))
    });

    // f(x, y) = x + y
    let f = |x: f64, y: f64| x + y;
    check_fd_xy(f, x0, y0, h, |g, x, y| {
        let xv = Value::new(g, x.to_bits());
        let yv = Value::new(g, y.to_bits());
        (xv, yv, xv.add(g, yv))
    });

    // f(x, y) = x^3 + y (exercises the pow rule)
    let f = |x: f64, y: f64| x.powf(3.0) + y;
    check_fd_xy(f, x0, y0, h, |g, x, y| {
        let xv = Value::new(g, x.to_bits());
        let yv = Value::new(g, y.to_bits());
        let p = xv.pow(g, (3.0f64).to_bits());
        (xv, yv, p.add(g, yv))
    });

    // f(x, y) = tanh(x * y + x)
    let f = |x: f64, y: f64| (x * y + x).tanh();
    check_fd_xy(f, x0, y0, h, |g, x, y| {
        let xv = Value::new(g, x.to_bits());
        let yv = Value::new(g, y.to_bits());
        let m = xv.mul(g, yv);
        let s = m.add(g, xv);
        (xv, yv, s.tanh(g))
    });
}

fn check_fd_xy<F, B>(f: F, x0: f64, y0: f64, h: f64, build: B)
where
    F: Fn(f64, f64) -> f64,
    B: Fn(&mut Graph, f64, f64) -> (Value, Value, Value),
{
    let mut g = Graph::new();
    let (xv, yv, out) = build(&mut g, x0, y0);
    out.backprop(&mut g);
    let gx = grad(xv, &g).unwrap();
    let gy = grad(yv, &g).unwrap();
    let fd_x = (f(x0 + h, y0) - f(x0 - h, y0)) / (2.0 * h);
    let fd_y = (f(x0, y0 + h) - f(x0, y0 - h)) / (2.0 * h);
    assert!((gx - fd_x).abs() < 1e-4, "d/dx: analytic {gx}, numeric {fd_x}");
    assert!((gy - fd_y).abs() < 1e-4, "d/dy: analytic {gy}, numeric {fd_y}");
}

#[test]
fn update_applies_gradient_step() {
    // y = x * x at x = 3: dy/dx = 6; update with lr = 0.1 moves x to
    // exactly 3 + (-0.1) * 6, with IEEE rounding.
    let mut g = Graph::new();
    let x = leaf(&mut g, 3.0);
    let y = x.mul(&mut g, x);
    y.backprop(&mut g);
    x.update(&mut g, (0.1f64).to_bits());
    let expected = 3.0f64 + (-0.1f64) * 6.0f64;
    assert_eq!(val(x, &g).to_bits(), expected.to_bits());
}

#[test]
fn backprop_seeds_only_unset_root() {
    // A second backward pass from the same root accumulates on top of the
    // existing gradients instead of resetting them: the root keeps its
    // already-set gradient as the seed.
    let mut g = Graph::new();
    let x = leaf(&mut g, 2.0);
    let y = leaf(&mut g, 5.0);
    let f = x.mul(&mut g, y);
    f.backprop(&mut g);
    assert_eq!(grad(x, &g), Some(5.0));
    f.backprop(&mut g);
    // Root gradient was already 1.0, so another 5.0 lands on x.
    assert_eq!(grad(x, &g), Some(10.0));
}

#[test]
fn division_by_zero_propagates() {
    // Division by a zero operand yields IEEE-754 infinity, not an error.
    let mut g = Graph::new();
    let a = leaf(&mut g, 1.0);
    let b = leaf(&mut g, 0.0);
    let c = a.div(&mut g, b);
    assert!(val(c, &g).is_infinite());
}

#[test]
fn reset_keeps_parameters_discards_the_rest() {
    // An arena reset ends a forward/backward cycle: nodes past the
    // watermark are gone, kept nodes keep their values, and every kept
    // gradient is unset again.
    let mut g = Graph::new();
    let a = leaf(&mut g, 2.0);
    let b = leaf(&mut g, 3.0);
    let c = a.mul(&mut g, b);
    c.backprop(&mut g);
    assert_eq!(grad(a, &g), Some(3.0));
    g.reset(2);
    assert_eq!(val(a, &g), 2.0);
    assert_eq!(val(b, &g), 3.0);
    assert_eq!(a.grad(&g), None);
    assert_eq!(b.grad(&g), None);
    // The same leaves are usable in the next pass.
    let d = a.add(&mut g, b);
    assert_eq!(val(d, &g), 5.0);
}

#[test]
fn tanh_saturation_gives_zero_gradient() {
    // A saturated tanh (forward value exactly 1.0) is not an error: the
    // backward pass completes and the local derivative 1 - tanh^2 is a
    // legitimate zero.
    let mut g = Graph::new();
    let x = leaf(&mut g, 20.0);
    let f = x.tanh(&mut g);
    assert_eq!(val(f, &g), 1.0);
    f.backprop(&mut g);
    assert_eq!(grad(x, &g), Some(0.0));
}

#[test]
fn backprop_from_a_leaf() {
    // The root's derivative with respect to itself is 1.0, even when the
    // root is a bare leaf with nothing upstream.
    let mut g = Graph::new();
    let a = leaf(&mut g, 4.5);
    a.backprop(&mut g);
    assert_eq!(grad(a, &g), Some(1.0));
    assert_eq!(val(a, &g), 4.5);
}
