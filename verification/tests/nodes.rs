//! Nodes are imported, and the graphs that come of them are computed.

use luminal_python::bits::FloatMath;
use luminal_python::graph::{Binary, DType, ComputeGraph, GraphTensor, Op, Reduction, Unary};
use luminal_python::names::NameMap;
use luminal_python::nodes::{process_onnx_nodes, try_process_onnx_nodes};
use luminal_python::ops::activation::parse_sigmoid_node;
use luminal_python::ops::constant::{parse_constant, parse_constant_of_shape};
use luminal_python::ops::elementwise::{
    parse_abs_node, parse_cos_node, parse_less_or_equal_node, parse_neg_node, parse_pow_node,
    parse_sin_node,
};
use luminal_python::ops::gather::parse_gather_node;
use luminal_python::ops::layout::{parse_reshape_node, parse_shape_node, parse_transpose_node};
use luminal_python::ops::matrix::{parse_gemm_node, parse_matmul_node, parse_trilu_node};
use luminal_python::ops::normalize::{parse_layer_normalization_node, parse_reduce_mean_node};
use luminal_python::ops::pieces::{parse_concat_node, parse_slice_node, parse_split_node};
use luminal_python::ops::select::{parse_expand_node, parse_where_node};
use luminal_python::proto::{AttributeDef, NodeDef, TensorDef};
use luminal_python::shape::Dim;
use luminal_python::state::Fault;

struct Single;

impl FloatMath for Single {
    fn add(&self, a: u32, b: u32) -> u32 {
        (f32::from_bits(a) + f32::from_bits(b)).to_bits()
    }
    fn mul(&self, a: u32, b: u32) -> u32 {
        (f32::from_bits(a) * f32::from_bits(b)).to_bits()
    }
    fn div(&self, a: u32, b: u32) -> u32 {
        (f32::from_bits(a) / f32::from_bits(b)).to_bits()
    }
    fn rem(&self, a: u32, b: u32) -> u32 {
        (f32::from_bits(a) % f32::from_bits(b)).to_bits()
    }
    fn pow(&self, a: u32, b: u32) -> u32 {
        f32::from_bits(a).powf(f32::from_bits(b)).to_bits()
    }
    fn sqrt(&self, a: u32) -> u32 {
        f32::from_bits(a).sqrt().to_bits()
    }
    fn cos(&self, a: u32) -> u32 {
        f32::from_bits(a).cos().to_bits()
    }
    fn sin(&self, a: u32) -> u32 {
        f32::from_bits(a).sin().to_bits()
    }
    fn tanh(&self, a: u32) -> u32 {
        f32::from_bits(a).tanh().to_bits()
    }
}

fn bits(values: &[f32]) -> Vec<u32> {
    values.iter().map(|v| v.to_bits()).collect()
}

fn floats(values: &[u32]) -> Vec<f32> {
    values.iter().map(|v| f32::from_bits(*v)).collect()
}

struct World {
    tensors: NameMap<GraphTensor>,
    cx: ComputeGraph,
    weights: Vec<(String, Vec<u32>)>,
    known: NameMap<Vec<u32>>,
}

impl World {
    fn new() -> World {
        World {
            tensors: NameMap::new(),
            cx: ComputeGraph::new(),
            weights: Vec::new(),
            known: NameMap::new(),
        }
    }

    /// A named tensor with data.
    fn give(&mut self, name: &str, sizes: &[usize], values: &[f32]) {
        let dims = sizes.iter().map(|s| Dim::Known(*s)).collect();
        let tensor = self.cx.named_tensor(name, dims);
        self.tensors.insert(name, tensor);
        self.weights.push((name.to_string(), bits(values)));
    }

    /// A named tensor with data that is known while the graph is built.
    fn know(&mut self, name: &str, sizes: &[usize], values: &[f32]) {
        self.give(name, sizes, values);
        self.known.insert(name, bits(values));
    }

    fn run(&mut self, node: &NodeDef) -> Result<(), Fault> {
        try_process_onnx_nodes(
            &vec![copy_node(node)],
            &mut self.tensors,
            &mut self.cx,
            &mut self.weights,
            &mut self.known,
            &Single,
        )
    }

    fn done(&mut self, node: &NodeDef) {
        match self.run(node) {
            Ok(()) => {}
            other => panic!("{:?}", other),
        }
    }

    fn error(&mut self, node: &NodeDef) -> String {
        match self.run(node) {
            Err(Fault::Error(message)) => message,
            other => panic!("{:?}", other),
        }
    }

    fn rejected(&mut self, node: &NodeDef) -> bool {
        matches!(self.run(node), Err(Fault::Rejected))
    }

    fn known_values(&self, name: &str) -> Option<Vec<f32>> {
        self.known.get(name).map(|v| floats(v))
    }

    fn weight(&self, name: &str) -> Option<Vec<f32>> {
        self.weights.iter().find(|(n, _)| n == name).map(|(_, v)| floats(v))
    }

    fn sizes(&self, name: &str) -> Vec<usize> {
        let tensor = self.tensors.get(name).unwrap();
        tensor
            .dims()
            .iter()
            .map(|d| match d {
                Dim::Known(n) => *n,
                Dim::Dynamic => panic!("dynamic"),
            })
            .collect()
    }

    fn value(&self, name: &str) -> Vec<f32> {
        let tensor = self.tensors.get(name).unwrap();
        read(tensor, &self.stored(tensor.id))
    }

    /// The stored elements of a node.
    fn stored(&self, id: usize) -> Vec<f32> {
        let node = &self.cx.nodes[id];
        let inputs: Vec<Vec<f32>> =
            node.inputs.iter().map(|t| read(t, &self.stored(t.id))).collect();
        let sizes: Vec<Vec<usize>> = node.inputs.iter().map(size_list).collect();
        match &node.op {
            Op::Load(name) => self.weight(name).unwrap(),
            Op::Constant(b) => vec![f32::from_bits(*b)],
            Op::Integer(n) => vec![*n as f32],
            Op::Arange(n) => (0..*n).map(|i| i as f32).collect(),
            Op::Triangle(upper, n, k) => {
                let mut out = Vec::new();
                for i in 0..*n as i32 {
                    for j in 0..*n as i32 {
                        let keep = if *upper { j - i >= *k } else { j - i <= *k };
                        out.push(if keep { 1.0 } else { 0.0 });
                    }
                }
                out
            }
            Op::Unary(op) => inputs[0]
                .iter()
                .map(|x| match op {
                    Unary::Sqrt => x.sqrt(),
                    Unary::Exp2 => x.exp2(),
                    Unary::Sin => x.sin(),
                    Unary::Cos => x.cos(),
                    Unary::Abs => x.abs(),
                    Unary::Recip => 1.0 / x,
                    Unary::Cast(DType::Int) => x.trunc(),
                    Unary::Cast(_) => *x,
                })
                .collect(),
            Op::Binary(op) => inputs[0]
                .iter()
                .zip(inputs[1].iter())
                .map(|(x, y)| match op {
                    Binary::Add | Binary::IntAdd => x + y,
                    Binary::Mul | Binary::IntMul => x * y,
                    Binary::Rem => x % y,
                    Binary::Pow => x.powf(*y),
                    Binary::Eq => (x == y) as i32 as f32,
                    Binary::Lt => (x < y) as i32 as f32,
                })
                .collect(),
            Op::Reduce(op, axis) => reduce(&sizes[0], &inputs[0], &[*axis], |v| match op {
                Reduction::Max => v.iter().cloned().fold(f32::NEG_INFINITY, f32::max),
                Reduction::Sum => v.iter().sum(),
            }),
            Op::Gather => inputs[1].iter().map(|i| inputs[0][*i as usize]).collect(),
            Op::Slice(ranges) => {
                let mut out = Vec::new();
                for (p, x) in inputs[0].iter().enumerate() {
                    let index = unflatten(p, &sizes[0]);
                    let inside = index.iter().zip(ranges.iter()).all(|(i, r)| match r {
                        (Dim::Known(a), Dim::Known(b)) => a <= i && i < b,
                        _ => true,
                    });
                    if inside {
                        out.push(*x);
                    }
                }
                out
            }
            Op::Concat(axis) => {
                let inner: usize = sizes[0][axis + 1..].iter().product();
                let a = sizes[0][*axis] * inner;
                let b = sizes[1][*axis] * inner;
                let outer: usize = sizes[0][..*axis].iter().product();
                let mut out = Vec::new();
                for o in 0..outer {
                    out.extend(&inputs[0][o * a..(o + 1) * a]);
                    out.extend(&inputs[1][o * b..(o + 1) * b]);
                }
                out
            }
        }
    }
}

fn size_list(tensor: &GraphTensor) -> Vec<usize> {
    tensor
        .dims()
        .iter()
        .map(|d| match d {
            Dim::Known(n) => *n,
            Dim::Dynamic => panic!("dynamic"),
        })
        .collect()
}

fn unflatten(p: usize, sizes: &[usize]) -> Vec<usize> {
    let mut rest = p;
    let mut index = vec![0; sizes.len()];
    for i in (0..sizes.len()).rev() {
        index[i] = rest % sizes[i];
        rest /= sizes[i];
    }
    index
}

/// The elements of a tensor in the order in which it is read.
fn read(tensor: &GraphTensor, stored: &[f32]) -> Vec<f32> {
    let sizes = size_list(tensor);
    let mut axes: Vec<usize> =
        (0..sizes.len()).filter(|i| tensor.shape.places[*i].is_some()).collect();
    axes.sort_by_key(|i| tensor.shape.places[*i]);
    let count: usize = sizes.iter().product();
    (0..count)
        .map(|p| {
            let index = unflatten(p, &sizes);
            let at = axes.iter().fold(0, |at, axis| at * sizes[*axis] + index[*axis]);
            stored[at]
        })
        .collect()
}

fn reduce<F: Fn(&[f32]) -> f32>(sizes: &[usize], x: &[f32], axes: &[usize], f: F) -> Vec<f32> {
    let kept: Vec<usize> = (0..sizes.len()).filter(|i| !axes.contains(i)).collect();
    let count: usize = kept.iter().map(|i| sizes[*i]).product();
    let mut groups: Vec<Vec<f32>> = vec![Vec::new(); count];
    for (p, v) in x.iter().enumerate() {
        let index = unflatten(p, sizes);
        let at = kept.iter().fold(0, |at, axis| at * sizes[*axis] + index[*axis]);
        groups[at].push(*v);
    }
    groups.iter().map(|g| f(g)).collect()
}

fn names(list: &[&str]) -> Vec<String> {
    list.iter().map(|n| n.to_string()).collect()
}

fn node(op_type: &str, input: &[&str], output: &[&str]) -> NodeDef {
    NodeDef {
        op_type: op_type.to_string(),
        input: names(input),
        output: names(output),
        attribute: Vec::new(),
    }
}

fn attribute(name: &str) -> AttributeDef {
    AttributeDef { name: name.to_string(), f: 0, i: 0, ints: Vec::new(), t: None }
}

fn with_int(mut node: NodeDef, name: &str, i: i64) -> NodeDef {
    node.attribute.push(AttributeDef { i, ..attribute(name) });
    node
}

fn with_float(mut node: NodeDef, name: &str, f: f32) -> NodeDef {
    node.attribute.push(AttributeDef { f: f.to_bits(), ..attribute(name) });
    node
}

fn with_ints(mut node: NodeDef, name: &str, ints: &[i64]) -> NodeDef {
    node.attribute.push(AttributeDef { ints: ints.to_vec(), ..attribute(name) });
    node
}

fn tensor(name: &str, dims: &[i64], data_type: i32) -> TensorDef {
    TensorDef {
        name: name.to_string(),
        dims: dims.to_vec(),
        data_type,
        float_data: Vec::new(),
        int32_data: Vec::new(),
        int64_data: Vec::new(),
        double_data: Vec::new(),
        raw_data: Vec::new(),
        external_data: Vec::new(),
        data_location: 0,
    }
}

fn with_tensor(mut node: NodeDef, name: &str, t: TensorDef) -> NodeDef {
    node.attribute.push(AttributeDef { t: Some(t), ..attribute(name) });
    node
}

fn copy_tensor(t: &TensorDef) -> TensorDef {
    TensorDef {
        name: t.name.clone(),
        dims: t.dims.clone(),
        data_type: t.data_type,
        float_data: t.float_data.clone(),
        int32_data: t.int32_data.clone(),
        int64_data: t.int64_data.clone(),
        double_data: t.double_data.clone(),
        raw_data: t.raw_data.clone(),
        external_data: t.external_data.clone(),
        data_location: t.data_location,
    }
}

fn copy_node(node: &NodeDef) -> NodeDef {
    NodeDef {
        op_type: node.op_type.clone(),
        input: node.input.clone(),
        output: node.output.clone(),
        attribute: node
            .attribute
            .iter()
            .map(|a| AttributeDef {
                name: a.name.clone(),
                f: a.f,
                i: a.i,
                ints: a.ints.clone(),
                t: a.t.as_ref().map(copy_tensor),
            })
            .collect(),
    }
}

fn close(a: &[f32], b: &[f32]) {
    assert_eq!(a.len(), b.len());
    for (x, y) in a.iter().zip(b.iter()) {
        assert!((x - y).abs() <= 1e-4 * (1.0 + y.abs()), "{:?} {:?}", a, b);
    }
}

#[test]
fn add_repeats_by_the_rules_of_numpy() {
    let mut w = World::new();
    w.give("a", &[2, 3], &[1.0, 2.0, 3.0, 4.0, 5.0, 6.0]);
    w.give("b", &[3], &[10.0, 20.0, 30.0]);
    w.done(&node("Add", &["a", "b"], &["y"]));
    assert_eq!(w.sizes("y"), vec![2, 3]);
    assert_eq!(w.value("y"), vec![11.0, 22.0, 33.0, 14.0, 25.0, 36.0]);
    assert_eq!(w.known_values("y"), None);
}

#[test]
fn add_of_known_values_is_known() {
    let mut w = World::new();
    w.know("a", &[2], &[1.5, 2.0]);
    w.know("b", &[1], &[0.25]);
    w.done(&node("Add", &["a", "b"], &["y"]));
    assert_eq!(w.known_values("y"), Some(vec![1.75, 2.25]));
    assert_eq!(w.weight("y"), Some(vec![1.75, 2.25]));
    assert_eq!(w.sizes("y"), vec![2]);
}

#[test]
fn product_of_zero_and_infinity_is_zero() {
    let mut w = World::new();
    w.know("a", &[2], &[0.0, 2.0]);
    w.know("b", &[2], &[f32::NEG_INFINITY, 3.0]);
    w.done(&node("Mul", &["a", "b"], &["y"]));
    assert_eq!(w.known_values("y"), Some(vec![0.0, 6.0]));
}

#[test]
fn missing_inputs_are_named() {
    let mut w = World::new();
    w.give("a", &[1], &[1.0]);
    assert_eq!(w.error(&node("Add", &["x", "a"], &["y"])), "Add: missing input tensor 'x'");
    assert_eq!(w.error(&node("Mul", &["a", "x"], &["y"])), "Mul: missing input tensor 'x'");
    assert_eq!(w.error(&node("Sqrt", &["x"], &["y"])), "Sqrt: missing input tensor 'x'");
    assert_eq!(w.error(&node("Gemm", &["x", "a"], &["y"])), "Gemm: missing input tensor 'x'");
    assert_eq!(w.error(&node("Gemm", &["a", "x"], &["y"])), "Gemm: missing weight tensor 'x'");
    assert_eq!(w.error(&node("Where", &["a", "x", "a"], &["y"])), "Where: missing X tensor 'x'");
    assert_eq!(w.error(&node("Gather", &["x", "a"], &["y"])), "Gather: missing data tensor 'x'");
    assert_eq!(w.error(&node("Gather", &["a", "x"], &["y"])), "Gather: missing indices tensor 'x'");
    assert_eq!(w.error(&node("Concat", &["a", "x"], &["y"])), "Concat: missing input tensor 'x'");
    assert_eq!(
        w.error(&node("LayerNormalization", &["a", "x"], &["y"])),
        "LayerNorm: missing scale tensor 'x'"
    );
    assert!(w.tensors.get("y").is_none());
}

#[test]
fn inputs_that_do_not_fit_are_rejected() {
    let mut w = World::new();
    w.give("a", &[2], &[1.0, 2.0]);
    w.give("b", &[3], &[1.0, 2.0, 3.0]);
    assert!(w.rejected(&node("Add", &["a", "b"], &["y"])));
    assert!(w.rejected(&node("Add", &["a"], &["y"])));
    assert!(w.rejected(&node("MatMul", &["a", "b"], &["y"])));
    assert!(w.rejected(&node("Identity", &["a"], &["y", "z"])));
}

#[test]
fn unknown_operations_are_quoted() {
    let mut w = World::new();
    assert_eq!(w.error(&node("Foo", &[], &[])), "Unsupported ONNX op type: \"Foo\"");
    assert_eq!(w.error(&node("a\"b", &[], &[])), "Unsupported ONNX op type: \"a\\\"b\"");
    assert_eq!(w.error(&node("ReduceMean", &[], &[])), "Unsupported ONNX op type: \"ReduceMean\"");
}

#[test]
fn division_by_known_values_multiplies_by_reciprocals() {
    let mut w = World::new();
    w.give("a", &[2], &[1.0, 3.0]);
    w.know("b", &[1], &[4.0]);
    w.done(&node("Div", &["a", "b"], &["y"]));
    assert_eq!(w.value("y"), vec![0.25, 0.75]);
    assert_eq!(w.weight("b_recip"), Some(vec![0.25]));
    w.done(&node("Div", &["a", "b"], &["z"]));
    assert_eq!(w.weights.iter().filter(|(n, _)| n == "b_recip").count(), 1);
    assert_eq!(w.value("z"), vec![0.25, 0.75]);
}

#[test]
fn division_folds_or_divides() {
    let mut w = World::new();
    w.know("a", &[2], &[1.0, 3.0]);
    w.know("b", &[2], &[4.0, 2.0]);
    w.give("c", &[2], &[8.0, 5.0]);
    w.done(&node("Div", &["a", "b"], &["y"]));
    assert_eq!(w.known_values("y"), Some(vec![0.25, 1.5]));
    w.done(&node("Div", &["a", "c"], &["z"]));
    close(&w.value("z"), &[0.125, 0.6]);
    assert_eq!(w.error(&node("Div", &["q", "c"], &["z"])), "Div: missing input tensor 'q'");
}

#[test]
fn square_roots_are_known_of_known_values() {
    let mut w = World::new();
    w.know("a", &[2], &[4.0, 9.0]);
    w.done(&node("Sqrt", &["a"], &["y"]));
    assert_eq!(w.known_values("y"), Some(vec![2.0, 3.0]));
    assert_eq!(w.value("y"), vec![2.0, 3.0]);
}

#[test]
fn equality_and_remainder() {
    let mut w = World::new();
    w.know("a", &[3], &[5.0, -7.0, 2.0]);
    w.know("b", &[3], &[5.0, 3.0, 0.5]);
    w.done(&node("Equal", &["a", "b"], &["e"]));
    assert_eq!(w.known_values("e"), Some(vec![1.0, 0.0, 0.0]));
    assert_eq!(w.value("e"), vec![1.0, 0.0, 0.0]);
    w.done(&node("Mod", &["a", "b"], &["m"]));
    assert_eq!(w.known_values("m"), Some(vec![0.0, -1.0, 0.0]));
}

#[test]
fn tanh_by_exponentials() {
    let mut w = World::new();
    w.give("a", &[3], &[0.0, 0.5, -2.0]);
    w.done(&node("Tanh", &["a"], &["y"]));
    close(&w.value("y"), &[0.0, 0.46211717, -0.9640276]);
    assert_eq!(w.weight("y_tanh_neg2"), Some(vec![-2.0]));
    assert_eq!(w.weight("y_tanh_log2e"), Some(vec![1.0f32 / 2.0f32.ln()]));
    w.know("b", &[1], &[0.5]);
    w.done(&node("Tanh", &["b"], &["z"]));
    assert_eq!(w.known_values("z"), Some(vec![0.5f32.tanh()]));
}

#[test]
fn softmax_sums_to_one() {
    let mut w = World::new();
    w.give("a", &[2, 3], &[1.0, 2.0, 3.0, 1000.0, 1000.0, 1000.0]);
    w.done(&node("Softmax", &["a"], &["y"]));
    close(&w.value("y"), &[0.09003057, 0.24472848, 0.66524094, 1.0 / 3.0, 1.0 / 3.0, 1.0 / 3.0]);
    w.done(&with_int(node("Softmax", &["a"], &["z"]), "axis", 0));
    close(&w.value("z"), &[0.0, 0.0, 0.0, 1.0, 1.0, 1.0]);
    assert!(w.rejected(&with_int(node("Softmax", &["a"], &["q"]), "axis", 2)));
}

#[test]
fn erf_and_gelu_by_the_logistic_function() {
    let mut w = World::new();
    w.give("a", &[3], &[0.0, 1.0, -0.5]);
    w.done(&node("Erf", &["a"], &["e"]));
    let erf = |x: f32| 2.0 / (1.0 + (-2.2567585 * x * (1.0 + 0.0885 * x * x)).exp()) - 1.0;
    close(&w.value("e"), &[erf(0.0), erf(1.0), erf(-0.5)]);
    w.done(&node("Gelu", &["a"], &["g"]));
    let gelu = |x: f32| x / (1.0 + (-1.5957692 * x * (1.0 + 0.044715 * x * x)).exp());
    close(&w.value("g"), &[gelu(0.0), gelu(1.0), gelu(-0.5)]);
    assert_eq!(w.weight("e_erf_coeff_a"), Some(vec![2.256_758_5]));
    assert_eq!(w.weight("e_erf_coeff_b"), Some(vec![0.0885]));
    assert_eq!(w.weight("g_gelu_coeff_a"), Some(vec![1.595_769_2]));
    assert_eq!(w.weight("g_gelu_coeff_b"), Some(vec![0.044715]));
}

#[test]
fn layers_are_normalized_scaled_and_shifted() {
    let mut w = World::new();
    w.give("x", &[2, 2], &[1.0, 3.0, 10.0, 20.0]);
    w.give("s", &[2], &[2.0, 4.0]);
    w.give("b", &[2], &[0.5, -0.5]);
    w.done(&node("LayerNormalization", &["x", "s", "b"], &["y"]));
    close(&w.value("y"), &[-1.5, 3.5, -1.5, 3.5]);
    assert_eq!(w.weight("y_epsilon"), Some(vec![1e-5]));
    w.done(&with_float(node("LayerNormalization", &["x", "s"], &["z"]), "epsilon", 3.0));
    close(&w.value("z"), &[-1.0, 2.0, -1.8898224, 3.7796447]);
    assert_eq!(
        w.error(&node("LayerNormalization", &["x", "s", "q"], &["v"])),
        "LayerNorm: missing bias tensor 'q'"
    );
    assert_eq!(w.weight("v_neg_one"), Some(vec![-1.0]));
}

#[test]
fn constants_of_all_types() {
    let mut w = World::new();
    let mut t = tensor("", &[2], 1);
    t.raw_data = vec![0, 0, 128, 63, 0, 0, 0, 192];
    w.done(&with_tensor(node("Constant", &[], &["f"]), "value", t));
    assert_eq!(w.known_values("f"), Some(vec![1.0, -2.0]));
    let mut t = tensor("", &[], 7);
    t.int64_data = vec![-3];
    w.done(&with_tensor(node("Constant", &[], &["l"]), "value", t));
    assert_eq!(w.known_values("l"), Some(vec![-3.0]));
    assert_eq!(w.sizes("l"), vec![1]);
    let mut t = tensor("", &[1], 6);
    t.raw_data = vec![255, 255, 255, 255];
    w.done(&with_tensor(node("Constant", &[], &["i"]), "value", t));
    assert_eq!(w.known_values("i"), Some(vec![-1.0]));
    let mut t = tensor("", &[3], 9);
    t.raw_data = vec![0, 1, 7];
    w.done(&with_tensor(node("Constant", &[], &["b"]), "value", t));
    assert_eq!(w.known_values("b"), Some(vec![0.0, 1.0, 1.0]));
    let mut t = tensor("", &[1], 11);
    t.raw_data = 0.1f64.to_le_bytes().to_vec();
    w.done(&with_tensor(node("Constant", &[], &["d"]), "value", t));
    assert_eq!(w.known_values("d"), Some(vec![0.1f64 as f32]));
}

#[test]
fn constants_given_as_doubles() {
    let mut w = World::new();
    let mut t = tensor("", &[1], 11);
    t.double_data = vec![2.5f64.to_bits()];
    w.done(&with_tensor(node("Constant", &[], &["y"]), "value", t));
    assert_eq!(w.known_values("y"), Some(vec![2.5]));
    assert_eq!(w.weight("y"), Some(vec![2.5]));
    assert_eq!(w.sizes("y"), vec![1]);
}

#[test]
fn constants_that_are_not_given() {
    let mut w = World::new();
    assert_eq!(w.error(&node("Constant", &[], &["y"])), "Constant node missing 'value' attribute");
    assert_eq!(
        w.error(&with_int(node("Constant", &[], &["y"]), "value", 1)),
        "Constant 'value' attribute has no TensorProto"
    );
    assert_eq!(
        w.error(&with_tensor(node("Constant", &[], &["y"]), "value", tensor("", &[1], 14))),
        "Constant node: unsupported data_type 14"
    );
    assert_eq!(
        w.error(&with_tensor(node("Constant", &[], &["y"]), "value", tensor("", &[1], -20))),
        "Constant node: unsupported data_type -20"
    );
    assert!(w.rejected(&node("Constant", &[], &["y", "z"])));
}

#[test]
fn constant_of_shape_fills() {
    let mut w = World::new();
    w.know("s", &[2], &[2.0, 3.0]);
    w.done(&node("ConstantOfShape", &["s"], &["y"]));
    assert_eq!(w.known_values("y"), Some(vec![0.0; 6]));
    assert_eq!(w.sizes("y"), vec![2, 3]);
    let mut t = tensor("", &[1], 7);
    t.int64_data = vec![4];
    w.done(&with_tensor(node("ConstantOfShape", &["s"], &["z"]), "value", t));
    assert_eq!(w.weight("z"), Some(vec![4.0; 6]));
    assert_eq!(
        w.error(&node("ConstantOfShape", &["q"], &["y"])),
        "ConstantOfShape: shape input 'q' not found in weight_data (must come from a Constant node)"
    );
}

#[test]
fn constant_of_shape_takes_what_is_known() {
    let mut w = World::new();
    let s = w.cx.named_tensor("s", vec![Dim::Known(1)]);
    w.tensors.insert("s", s);
    w.known.insert("s", bits(&[2.0]));
    w.done(&node("ConstantOfShape", &["s"], &["y"]));
    assert_eq!(w.sizes("y"), vec![2]);
    assert_eq!(w.known_values("y"), Some(vec![0.0, 0.0]));
    assert_eq!(w.weights, vec![("y".to_string(), bits(&[0.0, 0.0]))]);
}

#[test]
fn where_repeats_known_values() {
    let mut w = World::new();
    w.know("c", &[2, 1], &[1.0, 0.0]);
    w.know("x", &[1, 2], &[1.0, 2.0]);
    w.know("y", &[1], &[9.0]);
    w.done(&node("Where", &["c", "x", "y"], &["r"]));
    assert_eq!(w.sizes("r"), vec![2, 2]);
    assert_eq!(w.known_values("r"), Some(vec![1.0, 2.0, 9.0, 9.0]));
    assert_eq!(w.value("r"), vec![1.0, 2.0, 9.0, 9.0]);
}

#[test]
fn where_chooses() {
    let mut w = World::new();
    w.give("c", &[2, 1], &[1.0, 0.0]);
    w.give("x", &[2], &[1.0, 2.0]);
    w.know("y", &[1], &[f32::NEG_INFINITY]);
    w.done(&node("Where", &["c", "x", "y"], &["r"]));
    assert_eq!(w.sizes("r"), vec![2, 2]);
    assert_eq!(w.value("r"), vec![1.0, 2.0, -1e9, -1e9]);
    assert_eq!(w.weight("r_y_clamped"), Some(vec![-1e9]));
    assert_eq!(w.weight("r_x_clamped"), None);
    assert!(w.tensors.contains_key("r_y_clamped"));
    w.know("k", &[2], &[0.0, 3.0]);
    w.know("l", &[2], &[5.0, 6.0]);
    w.done(&node("Where", &["k", "l", "y"], &["f"]));
    assert_eq!(w.known_values("f"), Some(vec![f32::NEG_INFINITY, 6.0]));
    assert_eq!(w.error(&node("Where", &["q", "x", "y"], &["r"])), "Where: missing condition tensor 'q'");
    assert_eq!(w.error(&node("Where", &["c", "x", "q"], &["r"])), "Where: missing Y tensor 'q'");
}

#[test]
fn expand_repeats_axes_of_size_one() {
    let mut w = World::new();
    w.know("x", &[2, 1], &[1.0, 2.0]);
    w.know("s", &[3], &[2.0, 1.0, 3.0]);
    w.done(&node("Expand", &["x", "s"], &["y"]));
    assert_eq!(w.sizes("y"), vec![2, 2, 3]);
    let expected = vec![1.0, 1.0, 1.0, 2.0, 2.0, 2.0, 1.0, 1.0, 1.0, 2.0, 2.0, 2.0];
    assert_eq!(w.value("y"), expected);
    assert_eq!(w.known_values("y"), Some(expected));
    assert_eq!(w.error(&node("Expand", &["x", "q"], &["z"])), "Expand: missing shape data for 'q'");
    w.know("t", &[1], &[2.0]);
    assert!(w.rejected(&node("Expand", &["x", "t"], &["z"])));
}

#[test]
fn gather_of_known_values() {
    let mut w = World::new();
    w.know("d", &[2, 3], &[1.0, 2.0, 3.0, 4.0, 5.0, 6.0]);
    w.know("i", &[2], &[-1.0, 0.0]);
    w.done(&with_int(node("Gather", &["d", "i"], &["y"]), "axis", 1));
    assert_eq!(w.sizes("y"), vec![2, 2]);
    assert_eq!(w.known_values("y"), Some(vec![3.0, 1.0, 6.0, 4.0]));
    w.done(&node("Gather", &["d", "i"], &["z"]));
    assert_eq!(w.known_values("z"), Some(vec![4.0, 5.0, 6.0, 1.0, 2.0, 3.0]));
    w.know("v", &[3], &[7.0, 8.0, 9.0]);
    w.know("s", &[], &[1.0]);
    w.done(&node("Gather", &["v", "s"], &["q"]));
    assert_eq!(w.sizes("q"), vec![1]);
    assert_eq!(w.known_values("q"), Some(vec![8.0]));
}

#[test]
fn gather_of_a_vector() {
    let mut w = World::new();
    w.give("d", &[4], &[1.0, 2.0, 3.0, 4.0]);
    w.give("i", &[2, 2], &[0.0, -1.0, -4.0, 2.0]);
    w.done(&node("Gather", &["d", "i"], &["y"]));
    assert_eq!(w.sizes("y"), vec![2, 2]);
    assert_eq!(w.value("y"), vec![1.0, 4.0, 1.0, 3.0]);
}

#[test]
fn gather_of_slices() {
    let mut w = World::new();
    w.give("d", &[3, 2], &[1.0, 2.0, 3.0, 4.0, 5.0, 6.0]);
    w.give("i", &[2], &[2.0, -3.0]);
    w.done(&node("Gather", &["d", "i"], &["y"]));
    assert_eq!(w.sizes("y"), vec![2, 2]);
    assert_eq!(w.value("y"), vec![5.0, 6.0, 1.0, 2.0]);
    let cube: Vec<f32> = (0..12).map(|i| i as f32).collect();
    w.give("c", &[3, 2, 2], &cube);
    w.done(&node("Gather", &["c", "i"], &["z"]));
    assert_eq!(w.sizes("z"), vec![2, 2, 2]);
    assert_eq!(w.value("z"), vec![8.0, 9.0, 10.0, 11.0, 0.0, 1.0, 2.0, 3.0]);
}

#[test]
fn gather_along_another_axis() {
    let mut w = World::new();
    let cube: Vec<f32> = (0..12).map(|i| i as f32).collect();
    w.give("c", &[2, 3, 2], &cube);
    w.give("i", &[2], &[2.0, -3.0]);
    w.done(&with_int(node("Gather", &["c", "i"], &["y"]), "axis", 1));
    assert_eq!(w.sizes("y"), vec![2, 2, 2]);
    assert_eq!(w.value("y"), vec![4.0, 5.0, 0.0, 1.0, 10.0, 11.0, 6.0, 7.0]);
    w.done(&with_int(node("Gather", &["c", "i"], &["z"]), "axis", -2));
    assert_eq!(w.value("z"), w.value("y"));
    assert!(w.rejected(&with_int(node("Gather", &["c", "i"], &["q"]), "axis", 3)));
}

#[test]
fn gather_needs_sizes() {
    let mut w = World::new();
    let open = w.cx.named_tensor("o", vec![Dim::Known(2), Dim::Dynamic]);
    w.tensors.insert("o", open);
    w.give("i", &[1], &[0.0]);
    assert_eq!(
        w.error(&with_int(node("Gather", &["o", "i"], &["y"]), "axis", 1)),
        "Gather: axis dimension must be concrete for index normalization"
    );
    assert_eq!(
        w.error(&node("Gather", &["o", "i"], &["y"])),
        "Gather: inner dimensions must be concrete"
    );
}

#[test]
fn triangles() {
    let mut w = World::new();
    let m: Vec<f32> = (1..10).map(|i| i as f32).collect();
    w.know("a", &[3, 3], &m);
    w.give("b", &[3, 3], &m);
    w.know("k", &[1], &[1.0]);
    let upper = vec![0.0, 2.0, 3.0, 0.0, 0.0, 6.0, 0.0, 0.0, 0.0];
    w.done(&node("Trilu", &["a", "k"], &["u"]));
    assert_eq!(w.known_values("u"), Some(upper.clone()));
    w.done(&node("Trilu", &["b", "k"], &["v"]));
    assert_eq!(w.value("v"), upper);
    let lower = vec![1.0, 0.0, 0.0, 4.0, 5.0, 0.0, 7.0, 8.0, 9.0];
    w.done(&with_int(node("Trilu", &["a"], &["l"]), "upper", 0));
    assert_eq!(w.known_values("l"), Some(lower.clone()));
    w.done(&with_int(node("Trilu", &["b", ""], &["p"]), "upper", 0));
    assert_eq!(w.value("p"), lower);
    assert_eq!(
        w.error(&node("Trilu", &["b", "q"], &["v"])),
        "Trilu: k input 'q' must be a known constant"
    );
    w.give("r", &[2, 3], &m[..6]);
    assert!(w.rejected(&node("Trilu", &["r"], &["v"])));
    w.give("x", &[3], &m[..3]);
    assert!(w.rejected(&node("Trilu", &["x"], &["v"])));
    let open = w.cx.named_tensor("o", vec![Dim::Dynamic, Dim::Known(2)]);
    w.tensors.insert("o", open);
    assert_eq!(
        w.error(&node("Trilu", &["o"], &["v"])),
        "Trilu: second-to-last dimension must be concrete"
    );
    let open = w.cx.named_tensor("n", vec![Dim::Known(2), Dim::Dynamic]);
    w.tensors.insert("n", open);
    assert_eq!(w.error(&node("Trilu", &["n"], &["v"])), "Trilu: last dimension must be concrete");
}

#[test]
fn upper_and_lower_triangle_make_the_whole() {
    let mut w = World::new();
    let m = [1.0, 2.0, 3.0, 4.0, 5.0, 6.0];
    w.know("a", &[2, 3], &m);
    w.know("k", &[1], &[1.0]);
    w.know("j", &[1], &[0.0]);
    w.done(&node("Trilu", &["a", "k"], &["u"]));
    w.done(&with_int(node("Trilu", &["a", "j"], &["l"]), "upper", 0));
    let upper = w.known_values("u").unwrap();
    let lower = w.known_values("l").unwrap();
    for i in 0..6 {
        assert_eq!(upper[i] + lower[i], m[i]);
        assert!(upper[i] == 0.0 || lower[i] == 0.0);
    }
}

#[test]
fn casts() {
    let mut w = World::new();
    w.know("a", &[4], &[1.7, -1.7, 0.0, 300.0]);
    w.done(&with_int(node("Cast", &["a"], &["i"]), "to", 7));
    assert_eq!(w.known_values("i"), Some(vec![1.0, -1.0, 0.0, 300.0]));
    assert_eq!(w.value("i"), vec![1.0, -1.0, 0.0, 300.0]);
    w.done(&with_int(node("Cast", &["a"], &["b"]), "to", 9));
    assert_eq!(w.known_values("b"), Some(vec![1.0, 1.0, 0.0, 1.0]));
    w.done(&node("Cast", &["a"], &["f"]));
    assert_eq!(w.known_values("f"), Some(vec![1.7, -1.7, 0.0, 300.0]));
    w.done(&with_int(node("Cast", &["a"], &["h"]), "to", 10));
    let id = w.tensors.get("h").unwrap().id;
    assert!(matches!(w.cx.nodes[id].op, Op::Unary(Unary::Cast(DType::F16))));
    w.done(&with_int(node("Cast", &["a"], &["g"]), "to", 16));
    let id = w.tensors.get("g").unwrap().id;
    assert!(matches!(w.cx.nodes[id].op, Op::Unary(Unary::Cast(DType::Bf16))));
}

#[test]
fn transposes() {
    let mut w = World::new();
    w.give("a", &[2, 3], &[1.0, 2.0, 3.0, 4.0, 5.0, 6.0]);
    w.done(&node("Transpose", &["a"], &["y"]));
    assert_eq!(w.sizes("y"), vec![3, 2]);
    assert_eq!(w.value("y"), vec![1.0, 4.0, 2.0, 5.0, 3.0, 6.0]);
    w.done(&with_ints(node("Transpose", &["y"], &["z"]), "perm", &[1, 0]));
    assert_eq!(w.value("z"), w.value("a"));
    assert!(w.rejected(&with_ints(node("Transpose", &["a"], &["q"]), "perm", &[0, 0])));
    assert!(w.rejected(&with_ints(node("Transpose", &["a"], &["q"]), "perm", &[0])));
    assert!(w.rejected(&with_ints(node("Transpose", &["a"], &["q"]), "perm", &[0, -1])));
}

#[test]
fn matrix_products() {
    let mut w = World::new();
    w.give("a", &[2, 2], &[1.0, 2.0, 3.0, 4.0]);
    w.give("b", &[2, 1], &[5.0, 6.0]);
    w.done(&node("MatMul", &["a", "b"], &["y"]));
    assert_eq!(w.sizes("y"), vec![2, 1]);
    assert_eq!(w.value("y"), vec![17.0, 39.0]);
    assert!(w.rejected(&node("MatMul", &["b", "a"], &["z"])));
}

#[test]
fn gemm_of_a_layer() {
    let mut w = World::new();
    w.give("x", &[1, 2], &[1.0, 2.0]);
    w.give("w", &[3, 2], &[1.0, 2.0, 3.0, 4.0, 5.0, 6.0]);
    w.give("c", &[3], &[0.5, 1.5, 2.5]);
    w.done(&with_int(node("Gemm", &["x", "w", "c"], &["y"]), "transB", 1));
    assert_eq!(w.sizes("w_kn"), vec![2, 3]);
    assert_eq!(w.sizes("y"), vec![1, 3]);
    w.weights.push(("w_kn".to_string(), bits(&[1.0, 3.0, 5.0, 2.0, 4.0, 6.0])));
    assert_eq!(w.value("y"), vec![5.5, 12.5, 19.5]);
    assert_eq!(
        w.error(&with_int(node("Gemm", &["x", "w", "q"], &["z"]), "transB", 1)),
        "Gemm: missing bias tensor 'q'"
    );
}

#[test]
fn gemm_with_factors() {
    let mut w = World::new();
    w.give("x", &[2, 1], &[1.0, 2.0]);
    w.give("w", &[2, 2], &[1.0, 2.0, 3.0, 4.0]);
    w.give("c", &[2], &[1.0, 10.0]);
    let mut n = with_int(node("Gemm", &["x", "w", "c"], &["y"]), "transA", 1);
    n = with_float(n, "alpha", 2.0);
    n = with_float(n, "beta", 0.5);
    w.done(&n);
    assert_eq!(w.value("y"), vec![14.5, 25.0]);
    assert!(w.rejected(&node("Gemm", &["x", "w"], &["z"])));
}

#[test]
fn sizes_as_a_tensor() {
    let mut w = World::new();
    w.give("a", &[2, 3], &[0.0; 6]);
    w.done(&node("Shape", &["a"], &["s"]));
    assert_eq!(w.known_values("s"), Some(vec![2.0, 3.0]));
    assert_eq!(w.sizes("s"), vec![2]);
}

#[test]
fn reshapes() {
    let mut w = World::new();
    w.know("a", &[2, 3], &[1.0, 2.0, 3.0, 4.0, 5.0, 6.0]);
    w.know("s", &[2], &[-1.0, 2.0]);
    w.done(&node("Reshape", &["a", "s"], &["y"]));
    assert_eq!(w.sizes("y"), vec![3, 2]);
    assert_eq!(w.known_values("y"), w.known_values("a"));
    w.know("t", &[3], &[0.0, 1.0, -1.0]);
    w.done(&node("Reshape", &["a", "t"], &["z"]));
    assert_eq!(w.sizes("z"), vec![2, 1, 3]);
    assert_eq!(
        w.error(&node("Reshape", &["a", "q"], &["z"])),
        "Reshape: shape input 'q' must be a known constant"
    );
    w.know("u", &[3], &[1.0, 1.0, 0.0]);
    assert!(w.rejected(&node("Reshape", &["a", "u"], &["z"])));
}

#[test]
fn reshape_stores_what_is_not_in_order() {
    let mut w = World::new();
    w.give("a", &[2, 3], &[1.0, 2.0, 3.0, 4.0, 5.0, 6.0]);
    w.know("s", &[1], &[6.0]);
    w.done(&node("Transpose", &["a"], &["t"]));
    w.done(&node("Reshape", &["t", "s"], &["y"]));
    assert_eq!(w.value("y"), vec![1.0, 4.0, 2.0, 5.0, 3.0, 6.0]);
}

#[test]
fn slices() {
    let mut w = World::new();
    w.give("a", &[2, 4], &[1.0, 2.0, 3.0, 4.0, 5.0, 6.0, 7.0, 8.0]);
    w.know("s", &[1], &[1.0]);
    w.know("e", &[1], &[-1.0]);
    w.know("x", &[1], &[-1.0]);
    w.done(&node("Slice", &["a", "s", "e", "x"], &["y"]));
    assert_eq!(w.sizes("y"), vec![2, 2]);
    assert_eq!(w.value("y"), vec![2.0, 3.0, 6.0, 7.0]);
    w.know("far", &[1], &[100.0]);
    w.done(&node("Slice", &["a", "s", "far"], &["z"]));
    assert_eq!(w.value("z"), vec![5.0, 6.0, 7.0, 8.0]);
    w.know("two", &[1], &[2.0]);
    assert!(w.rejected(&node("Slice", &["a", "s", "far", "", "two"], &["z"])));
    assert_eq!(w.error(&node("Slice", &["a", "q", "e"], &["z"])), "Slice: starts 'q' must be known");
    assert_eq!(w.error(&node("Slice", &["a", "s", "q"], &["z"])), "Slice: ends 'q' must be known");
    assert_eq!(
        w.error(&node("Slice", &["a", "s", "e", "q"], &["z"])),
        "Slice: axes 'q' must be known"
    );
    assert_eq!(
        w.error(&node("Slice", &["a", "s", "e", "x", "q"], &["z"])),
        "Slice: steps 'q' must be known"
    );
    let open = w.cx.named_tensor("o", vec![Dim::Dynamic]);
    w.tensors.insert("o", open);
    assert_eq!(w.error(&node("Slice", &["o", "s", "e"], &["z"])), "Slice: dimension must be concrete");
}

#[test]
fn slices_of_known_vectors() {
    let mut w = World::new();
    w.know("a", &[4], &[1.0, 2.0, 3.0, 4.0]);
    w.know("s", &[1], &[-3.0]);
    w.know("e", &[1], &[3.0]);
    w.done(&node("Slice", &["a", "s", "e"], &["y"]));
    assert_eq!(w.known_values("y"), Some(vec![2.0, 3.0]));
    w.done(&node("Slice", &["a", "e", "e"], &["z"]));
    assert_eq!(w.known_values("z"), Some(vec![]));
    assert_eq!(w.weight("z"), Some(vec![0.0]));
    assert_eq!(w.sizes("z"), vec![1]);
}

#[test]
fn slices_of_known_matrices() {
    let mut w = World::new();
    w.know("x", &[2, 2], &[1.0, 2.0, 3.0, 4.0]);
    w.know("s", &[1], &[1.0]);
    w.know("e", &[1], &[2.0]);
    w.know("a", &[1], &[1.0]);
    w.done(&node("Slice", &["x", "s", "e", "a"], &["y"]));
    assert_eq!(w.sizes("y"), vec![2, 1]);
    assert_eq!(w.known_values("y"), Some(vec![2.0, 4.0]));
    assert_eq!(w.value("y"), vec![2.0, 4.0]);
}

#[test]
fn concatenations_of_known_matrices() {
    let mut w = World::new();
    w.know("a", &[2, 1], &[1.0, 2.0]);
    w.know("b", &[2, 1], &[3.0, 4.0]);
    w.done(&with_int(node("Concat", &["a", "b"], &["y"]), "axis", 1));
    assert_eq!(w.sizes("y"), vec![2, 2]);
    assert_eq!(w.known_values("y"), Some(vec![1.0, 3.0, 2.0, 4.0]));
    assert_eq!(w.weights.last(), Some(&("y".to_string(), bits(&[1.0, 3.0, 2.0, 4.0]))));
    w.done(&node("Concat", &["a", "b"], &["z"]));
    assert_eq!(w.sizes("z"), vec![4, 1]);
    assert_eq!(w.known_values("z"), Some(vec![1.0, 2.0, 3.0, 4.0]));
}

#[test]
fn concatenations() {
    let mut w = World::new();
    w.give("a", &[2, 1], &[1.0, 2.0]);
    w.give("b", &[2, 2], &[3.0, 4.0, 5.0, 6.0]);
    w.done(&with_int(node("Concat", &["a", "b", "a"], &["y"]), "axis", -1));
    assert_eq!(w.sizes("y"), vec![2, 4]);
    assert_eq!(w.value("y"), vec![1.0, 3.0, 4.0, 1.0, 2.0, 5.0, 6.0, 2.0]);
    assert!(w.rejected(&node("Concat", &["a", "b"], &["z"])));
    w.know("c", &[1], &[7.0]);
    w.know("d", &[2], &[8.0, 9.0]);
    w.done(&node("Concat", &["c", "d"], &["k"]));
    assert_eq!(w.known_values("k"), Some(vec![7.0, 8.0, 9.0]));
    assert_eq!(w.sizes("k"), vec![3]);
}

#[test]
fn squeeze_undoes_unsqueeze() {
    let mut w = World::new();
    w.know("a", &[2, 3], &[1.0, 2.0, 3.0, 4.0, 5.0, 6.0]);
    w.know("x", &[2], &[-1.0, 1.0]);
    w.done(&node("Unsqueeze", &["a", "x"], &["u"]));
    assert_eq!(w.sizes("u"), vec![2, 1, 3, 1]);
    w.done(&node("Squeeze", &["u", "x"], &["s"]));
    assert_eq!(w.sizes("s"), vec![2, 3]);
    assert_eq!(w.value("s"), w.value("a"));
    assert_eq!(w.known_values("s"), w.known_values("a"));
    w.done(&node("Squeeze", &["u"], &["t"]));
    assert_eq!(w.sizes("t"), vec![2, 3]);
    w.done(&with_ints(node("Squeeze", &["u"], &["v"]), "axes", &[1]));
    assert_eq!(w.sizes("v"), vec![2, 3, 1]);
    assert!(w.rejected(&with_ints(node("Squeeze", &["u"], &["v"]), "axes", &[0])));
    assert_eq!(w.error(&node("Squeeze", &["u", "q"], &["v"])), "Squeeze: axes 'q' must be known");
    assert_eq!(w.error(&node("Unsqueeze", &["a", "q"], &["v"])), "Unsqueeze: axes 'q' must be known");
}

#[test]
fn other_names_of_a_tensor() {
    let mut w = World::new();
    w.know("a", &[1], &[3.0]);
    w.done(&node("Identity", &["a"], &["b"]));
    w.done(&node("Dropout", &["b", "r"], &["c", "mask"]));
    assert_eq!(w.tensors.get("c").unwrap().id, w.tensors.get("a").unwrap().id);
    assert_eq!(w.known_values("c"), Some(vec![3.0]));
    assert!(w.tensors.get("mask").is_none());
    assert_eq!(w.error(&node("Identity", &["q"], &["b"])), "Identity: missing input tensor 'q'");
    assert_eq!(w.error(&node("Dropout", &["q"], &["b"])), "Dropout: missing input tensor 'q'");
}

#[test]
fn splits() {
    let mut w = World::new();
    w.give("a", &[2, 3], &[1.0, 2.0, 3.0, 4.0, 5.0, 6.0]);
    w.know("s", &[2], &[1.0, 2.0]);
    w.done(&with_int(node("Split", &["a", "s"], &["p", "q"]), "axis", 1));
    assert_eq!(w.value("p"), vec![1.0, 4.0]);
    assert_eq!(w.value("q"), vec![2.0, 3.0, 5.0, 6.0]);
    w.done(&with_int(node("Concat", &["p", "q"], &["b"]), "axis", 1));
    assert_eq!(w.value("b"), w.value("a"));
    assert_eq!(
        w.error(&node("Split", &["a", "s"], &["p", "q"])),
        "Split: sum of split sizes (3) != dimension size (2)"
    );
    assert_eq!(
        w.error(&node("Split", &["a", "x"], &["p", "q"])),
        "Split: split sizes 'x' must be known"
    );
    w.know("v", &[5], &[1.0, 2.0, 3.0, 4.0, 5.0]);
    w.done(&node("Split", &["v"], &["l", "r"]));
    assert_eq!(w.known_values("l"), Some(vec![1.0, 2.0, 3.0]));
    assert_eq!(w.known_values("r"), Some(vec![4.0, 5.0]));
    w.done(&node("Concat", &["l", "r"], &["o"]));
    assert_eq!(w.known_values("o"), w.known_values("v"));
    assert!(w.rejected(&with_int(node("Split", &["v"], &["l", "r"]), "num_outputs", 0)));
    let open = w.cx.named_tensor("open", vec![Dim::Dynamic]);
    w.tensors.insert("open", open);
    assert_eq!(w.error(&node("Split", &["open"], &["l"])), "Split: dimension must be concrete");
}

#[test]
fn the_last_part_is_the_smallest() {
    let mut w = World::new();
    w.give("x", &[7], &[1.0, 2.0, 3.0, 4.0, 5.0, 6.0, 7.0]);
    w.done(&with_int(node("Split", &["x"], &["a", "b", "c"]), "num_outputs", 3));
    assert_eq!(w.value("a"), vec![1.0, 2.0, 3.0]);
    assert_eq!(w.value("b"), vec![4.0, 5.0, 6.0]);
    assert_eq!(w.value("c"), vec![7.0]);
}

#[test]
fn a_failure_changes_nothing_and_ends_the_import() {
    let mut w = World::new();
    w.know("a", &[1], &[4.0]);
    let nodes = vec![node("Relu", &["a"], &["b"]), node("Sqrt", &["a"], &["c"])];
    let count = w.cx.nodes.len();
    let result = process_onnx_nodes(
        &nodes,
        &mut w.tensors,
        &mut w.cx,
        &mut w.weights,
        &mut w.known,
        &Single,
    );
    match result {
        Err(m) => assert_eq!(m, "Unsupported ONNX op type: \"Relu\""),
        other => panic!("{:?}", other),
    }
    assert_eq!(w.cx.nodes.len(), count);
    assert_eq!((w.tensors.len(), w.weights.len(), w.known.len()), (1, 1, 1));
    w.done(&node("Identity", &["a"], &["b"]));
    assert_eq!(w.cx.nodes.len(), count);
}

#[test]
fn axes_from_both_ends_agree() {
    let mut w = World::new();
    w.give("a", &[2, 3], &[1.0, 2.0, 3.0, 3.0, 2.0, 2.0]);
    w.done(&with_int(node("Softmax", &["a"], &["y"]), "axis", 0));
    w.done(&with_int(node("Softmax", &["a"], &["z"]), "axis", -2));
    assert_eq!(w.value("y"), w.value("z"));
}

#[test]
fn gather_in_a_graph_and_ahead_of_time_agree() {
    let mut w = World::new();
    let cube: Vec<f32> = (0..12).map(|i| i as f32).collect();
    w.know("k", &[2, 3, 2], &cube);
    w.know("i", &[2], &[-1.0, 0.0]);
    w.give("g", &[2, 3, 2], &cube);
    for axis in 0..3 {
        w.done(&with_int(node("Gather", &["k", "i"], &["y"]), "axis", axis));
        w.done(&with_int(node("Gather", &["g", "i"], &["z"]), "axis", axis));
        assert_eq!(w.sizes("y"), w.sizes("z"));
        assert_eq!(w.known_values("y"), Some(w.value("z")));
    }
}

#[test]
fn an_order_and_its_inverse() {
    let mut w = World::new();
    let cube: Vec<f32> = (0..24).map(|i| i as f32).collect();
    w.give("a", &[2, 3, 4], &cube);
    w.done(&with_ints(node("Transpose", &["a"], &["b"]), "perm", &[1, 2, 0]));
    assert_eq!(w.sizes("b"), vec![3, 4, 2]);
    w.done(&with_ints(node("Transpose", &["b"], &["c"]), "perm", &[2, 0, 1]));
    assert_eq!(w.sizes("c"), vec![2, 3, 4]);
    assert_eq!(w.value("c"), cube);
}

#[test]
fn reshape_by_the_sizes_of_another_tensor() {
    let mut w = World::new();
    w.give("a", &[2, 3], &[1.0, 2.0, 3.0, 4.0, 5.0, 6.0]);
    w.know("v", &[1], &[-1.0]);
    w.done(&node("Shape", &["a"], &["s"]));
    w.done(&node("Reshape", &["a", "v"], &["flat"]));
    w.done(&node("Reshape", &["flat", "s"], &["b"]));
    assert_eq!(w.sizes("flat"), vec![6]);
    assert_eq!(w.sizes("b"), vec![2, 3]);
    assert_eq!(w.value("b"), w.value("a"));
}

#[test]
fn products_of_batches_of_matrices() {
    let mut w = World::new();
    w.give("a", &[2, 1, 2], &[1.0, 2.0, 3.0, 4.0]);
    w.give("b", &[2, 2, 2], &[1.0, 0.0, 0.0, 1.0, 2.0, 1.0, 1.0, 2.0]);
    w.give("m", &[2, 3], &[1.0, 2.0, 3.0, 4.0, 5.0, 6.0]);
    w.give("v", &[2], &[10.0, 1.0]);
    w.done(&node("MatMul", &["a", "b"], &["y"]));
    assert_eq!(w.sizes("y"), vec![2, 1, 2]);
    assert_eq!(w.value("y"), vec![1.0, 2.0, 10.0, 11.0]);
    w.done(&node("MatMul", &["a", "m"], &["z"]));
    assert_eq!(w.sizes("z"), vec![2, 1, 3]);
    assert_eq!(w.value("z"), vec![9.0, 12.0, 15.0, 19.0, 26.0, 33.0]);
    w.done(&node("MatMul", &["v", "m"], &["r"]));
    assert_eq!(w.sizes("r"), vec![3]);
    assert_eq!(w.value("r"), vec![14.0, 25.0, 36.0]);
}

#[test]
fn nodes_in_two_goes() {
    let mut one = World::new();
    let mut two = World::new();
    one.give("a", &[1], &[4.0]);
    two.give("a", &[1], &[4.0]);
    let first = node("Sqrt", &["a"], &["b"]);
    let second = node("Add", &["a", "b"], &["c"]);
    one.done(&first);
    one.done(&second);
    let both = vec![copy_node(&first), copy_node(&second)];
    let result = process_onnx_nodes(
        &both,
        &mut two.tensors,
        &mut two.cx,
        &mut two.weights,
        &mut two.known,
        &Single,
    );
    assert!(result.is_ok());
    assert_eq!(one.value("c"), vec![6.0]);
    assert_eq!(two.value("c"), vec![6.0]);
}

#[test]
fn names_are_kept_when_a_node_fails() {
    let mut w = World::new();
    w.give("a", &[1], &[4.0]);
    let nodes = vec![node("Sqrt", &["a"], &["b"]), node("Sqrt", &["x"], &["c"])];
    let result = process_onnx_nodes(
        &nodes,
        &mut w.tensors,
        &mut w.cx,
        &mut w.weights,
        &mut w.known,
        &Single,
    );
    assert_eq!(result, Err("Sqrt: missing input tensor 'x'".to_string()));
    assert!(w.tensors.contains_key("a"));
    assert!(w.tensors.contains_key("b"));
    assert!(!w.tensors.contains_key("c"));
}

#[test]
fn operations_without_a_node_type() {
    let mut w = World::new();
    w.know("a", &[2], &[-1.0, 2.0]);
    w.know("b", &[2], &[2.0, 2.0]);
    let one = |op: &str| node(op, &["a"], &["y"]);
    let two = |op: &str| node(op, &["a", "b"], &["y"]);
    assert!(parse_pow_node(&two("Pow"), &mut w.tensors, &mut w.cx, &mut w.known, &Single).is_ok());
    assert_eq!(w.known_values("y"), Some(vec![1.0, 4.0]));
    assert_eq!(w.value("y"), vec![1.0, 4.0]);
    assert!(parse_cos_node(&one("Cos"), &mut w.tensors, &mut w.cx, &mut w.known, &Single).is_ok());
    assert_eq!(w.known_values("y"), Some(vec![(-1.0f32).cos(), 2.0f32.cos()]));
    assert!(parse_sin_node(&one("Sin"), &mut w.tensors, &mut w.cx, &mut w.known, &Single).is_ok());
    assert_eq!(w.known_values("y"), Some(vec![(-1.0f32).sin(), 2.0f32.sin()]));
    assert!(parse_neg_node(&one("Neg"), &mut w.tensors, &mut w.cx, &mut w.known, &Single).is_ok());
    assert_eq!(w.known_values("y"), Some(vec![1.0, -2.0]));
    assert_eq!(w.value("y"), vec![1.0, -2.0]);
    assert!(parse_abs_node(&one("Abs"), &mut w.tensors, &mut w.cx, &mut w.known, &Single).is_ok());
    assert_eq!(w.known_values("y"), Some(vec![1.0, 2.0]));
    let n = two("LessOrEqual");
    assert!(
        parse_less_or_equal_node(&n, &mut w.tensors, &mut w.cx, &mut w.known, &Single).is_ok()
    );
    assert_eq!(w.known_values("y"), Some(vec![1.0, 1.0]));
    assert_eq!(w.value("y"), vec![1.0, 1.0]);
    let n = node("Pow", &["a", "q"], &["y"]);
    match parse_pow_node(&n, &mut w.tensors, &mut w.cx, &mut w.known, &Single) {
        Err(m) => assert_eq!(m, "Pow: missing exponent tensor 'q'"),
        other => panic!("{:?}", other),
    }
    let n = node("Pow", &["q", "a"], &["y"]);
    match parse_pow_node(&n, &mut w.tensors, &mut w.cx, &mut w.known, &Single) {
        Err(m) => assert_eq!(m, "Pow: missing base tensor 'q'"),
        other => panic!("{:?}", other),
    }
}

#[test]
fn what_is_not_a_number_is_not_less_or_equal() {
    let mut w = World::new();
    w.know("a", &[4], &[1.0, 2.0, 3.0, f32::NAN]);
    w.know("b", &[4], &[2.0, 2.0, 2.0, 2.0]);
    let n = node("LessOrEqual", &["a", "b"], &["y"]);
    assert!(
        parse_less_or_equal_node(&n, &mut w.tensors, &mut w.cx, &mut w.known, &Single).is_ok()
    );
    assert_eq!(w.known_values("y"), Some(vec![1.0, 1.0, 0.0, 0.0]));
    assert_eq!(w.value("y"), vec![1.0, 1.0, 0.0, 0.0]);
    assert_eq!(w.sizes("y"), vec![4]);
}

#[test]
fn sigmoid_by_exponentials() {
    let mut w = World::new();
    w.give("a", &[2], &[0.0, 2.0]);
    let n = node("Sigmoid", &["a"], &["y"]);
    assert!(parse_sigmoid_node(&n, &mut w.tensors, &mut w.cx, &mut w.weights).is_ok());
    close(&w.value("y"), &[0.5, 0.880797]);
}

#[test]
fn means_keep_axes_of_size_one() {
    let mut w = World::new();
    w.give("a", &[2, 3], &[1.0, 2.0, 3.0, 4.0, 5.0, 6.0]);
    w.know("x", &[1], &[-1.0]);
    let n = node("ReduceMean", &["a", "x"], &["y"]);
    assert!(parse_reduce_mean_node(&n, &mut w.tensors, &mut w.cx, &mut w.known).is_ok());
    assert_eq!(w.sizes("y"), vec![2, 1]);
    close(&w.value("y"), &[2.0, 5.0]);
    let n = with_int(with_ints(node("ReduceMean", &["a"], &["z"]), "axes", &[0]), "keepdims", 0);
    assert!(parse_reduce_mean_node(&n, &mut w.tensors, &mut w.cx, &mut w.known).is_ok());
    assert_eq!(w.sizes("z"), vec![3]);
    close(&w.value("z"), &[2.5, 3.5, 4.5]);
    let n = with_int(node("ReduceMean", &["a"], &["v"]), "keepdims", 0);
    assert!(parse_reduce_mean_node(&n, &mut w.tensors, &mut w.cx, &mut w.known).is_ok());
    close(&w.value("v"), &[3.5]);
    let n = node("ReduceMean", &["a", "q"], &["v"]);
    match parse_reduce_mean_node(&n, &mut w.tensors, &mut w.cx, &mut w.known) {
        Err(m) => assert_eq!(m, "ReduceMean: axes 'q' must be known"),
        other => panic!("{:?}", other),
    }
}

#[test]
fn known_values_are_repeated_by_the_rules_of_numpy() {
    let mut w = World::new();
    w.know("a", &[2, 1], &[1.0, 2.0]);
    w.know("b", &[1, 3], &[10.0, 20.0, 30.0]);
    w.done(&node("Add", &["a", "b"], &["y"]));
    assert_eq!(w.sizes("y"), vec![2, 3]);
    let expected = vec![11.0, 21.0, 31.0, 12.0, 22.0, 32.0];
    assert_eq!(w.known_values("y"), Some(expected.clone()));
    assert_eq!(w.value("y"), expected);
}

#[test]
fn own_sizes_change_nothing() {
    let mut w = World::new();
    w.know("a", &[2, 3], &[1.0, 2.0, 3.0, 4.0, 5.0, 6.0]);
    w.done(&node("Shape", &["a"], &["s"]));
    w.done(&node("Reshape", &["a", "s"], &["r"]));
    assert_eq!(w.sizes("r"), vec![2, 3]);
    assert_eq!(w.known_values("r"), w.known_values("a"));
    w.done(&node("Expand", &["a", "s"], &["e"]));
    assert_eq!(w.sizes("e"), vec![2, 3]);
    assert_eq!(w.known_values("e"), w.known_values("a"));
    assert_eq!(w.value("e"), w.value("a"));
    w.done(&node("ConstantOfShape", &["s"], &["z"]));
    assert_eq!(w.sizes("z"), vec![2, 3]);
}

#[test]
fn data_is_only_added() {
    let mut w = World::new();
    w.know("a", &[2], &[1.0, 2.0]);
    w.give("x", &[2], &[3.0, 4.0]);
    let before = w.weights.clone();
    w.done(&node("Tanh", &["x"], &["t"]));
    w.done(&node("Div", &["t", "a"], &["d"]));
    let _ = w.error(&node("Sqrt", &["q"], &["r"]));
    assert_eq!(w.weights[..before.len()], before[..]);
    assert_eq!(w.weights.len(), before.len() + 5);
    for i in 0..w.known.len() {
        assert!(w.tensors.contains_key(w.known.name(i)));
    }
}

#[test]
fn formulas_on_tensors_without_axes() {
    let mut w = World::new();
    w.give("a", &[], &[0.5]);
    w.done(&node("Tanh", &["a"], &["t"]));
    assert_eq!(w.sizes("t"), Vec::<usize>::new());
    close(&w.value("t"), &[0.46211717]);
    w.give("x", &[2], &[1.0, 3.0]);
    w.give("s", &[2], &[2.0, 4.0]);
    w.done(&node("LayerNormalization", &["x", "s"], &["y"]));
    close(&w.value("y"), &[-2.0, 4.0]);
}

#[test]
fn nodes_by_functions_of_their_own() {
    let mut w = World::new();
    w.know("m", &[2, 2], &[1.0, 2.0, 3.0, 4.0]);
    w.know("one", &[1], &[1.0]);
    w.know("two", &[1], &[2.0]);
    w.know("sizes", &[2], &[1.0, 4.0]);
    let mut run = |f: fn(
        &NodeDef,
        &mut NameMap<GraphTensor>,
        &mut ComputeGraph,
        &mut Vec<(String, Vec<u32>)>,
        &mut NameMap<Vec<u32>>,
    ) -> Result<(), String>,
                   n: NodeDef| {
        assert_eq!(f(&n, &mut w.tensors, &mut w.cx, &mut w.weights, &mut w.known), Ok(()));
        w.known_values(&n.output[0])
    };
    let mut t = tensor("", &[1], 1);
    t.float_data = bits(&[0.5]);
    let constant = with_tensor(node("Constant", &[], &["k"]), "value", t);
    assert_eq!(run(parse_constant, constant), Some(vec![0.5]));
    let zeros = node("ConstantOfShape", &["two"], &["z"]);
    assert_eq!(run(parse_constant_of_shape, zeros), Some(vec![0.0, 0.0]));
    let row = node("Gather", &["m", "one"], &["g"]);
    assert_eq!(run(parse_gather_node, row), Some(vec![3.0, 4.0]));
    assert_eq!(run(parse_shape_node, node("Shape", &["m"], &["s"])), Some(vec![2.0, 2.0]));
    let upper = node("Trilu", &["m"], &["u"]);
    assert_eq!(run(parse_trilu_node, upper), Some(vec![1.0, 2.0, 0.0, 4.0]));
    let both = node("Concat", &["one", "two"], &["c"]);
    assert_eq!(run(parse_concat_node, both), Some(vec![1.0, 2.0]));
    let last = node("Slice", &["m", "one", "two"], &["l"]);
    assert_eq!(run(parse_slice_node, last), Some(vec![3.0, 4.0]));
    let parts = node("Split", &["sizes"], &["a", "b"]);
    assert_eq!(run(parse_split_node, parts), Some(vec![1.0]));
    let choice = node("Where", &["one", "two", "one"], &["w"]);
    assert_eq!(run(parse_where_node, choice), Some(vec![2.0]));
    let n = node("Expand", &["one", "two"], &["e"]);
    assert!(parse_expand_node(&n, &mut w.tensors, &mut w.cx, &mut w.known).is_ok());
    assert_eq!(w.known_values("e"), Some(vec![1.0, 1.0]));
    let n = node("Reshape", &["m", "sizes"], &["r"]);
    assert!(parse_reshape_node(&n, &mut w.tensors, &mut w.cx, &mut w.known).is_ok());
    assert_eq!(w.sizes("r"), vec![1, 4]);
    let n = node("Transpose", &["m"], &["t"]);
    assert!(parse_transpose_node(&n, &mut w.tensors, &mut w.cx).is_ok());
    assert_eq!(w.value("t"), vec![1.0, 3.0, 2.0, 4.0]);
    let n = node("MatMul", &["m", "m"], &["p"]);
    assert!(parse_matmul_node(&n, &mut w.tensors, &mut w.cx).is_ok());
    assert_eq!(w.value("p"), vec![7.0, 10.0, 15.0, 22.0]);
    let n = node("Gemm", &["m", "m", "e"], &["q"]);
    assert!(parse_gemm_node(&n, &mut w.tensors, &mut w.cx).is_ok());
    assert_eq!(w.value("q"), vec![8.0, 11.0, 16.0, 23.0]);
    let n = node("LayerNormalization", &["m", "e"], &["n"]);
    assert!(parse_layer_normalization_node(&n, &mut w.tensors, &mut w.cx, &mut w.weights).is_ok());
    close(&w.value("n"), &[-0.99998, 0.99998, -0.99998, 0.99998]);
}

#[test]
fn concatenations_without_elements_or_axes() {
    let mut w = World::new();
    w.know("e", &[0], &[]);
    w.done(&node("Concat", &["e"], &["y"]));
    assert_eq!(w.sizes("y"), vec![1]);
    assert_eq!(w.known_values("y"), Some(vec![]));
    assert_eq!(w.weights.last(), Some(&("y".to_string(), Vec::new())));
    w.know("f", &[2, 0], &[]);
    w.done(&with_int(node("Concat", &["f", "f"], &["z"]), "axis", 1));
    assert_eq!(w.sizes("z"), vec![1]);
    w.know("s", &[], &[3.0]);
    w.done(&node("Concat", &["s"], &["v"]));
    assert_eq!(w.sizes("v"), vec![1]);
    assert_eq!(w.known_values("v"), Some(vec![3.0]));
}

#[test]
fn empty_parts_of_known_matrices() {
    let mut w = World::new();
    w.know("x", &[2, 2], &[1.0, 2.0, 3.0, 4.0]);
    w.know("two", &[1], &[2.0]);
    w.know("one", &[1], &[1.0]);
    let count = w.weights.len();
    w.done(&node("Slice", &["x", "two", "two", "one"], &["y"]));
    assert_eq!(w.sizes("y"), vec![2, 0]);
    assert_eq!(w.known_values("y"), None);
    assert_eq!(w.weights.len(), count);
}

#[test]
fn squeeze_by_an_attribute_and_without_axes() {
    let mut w = World::new();
    w.know("a", &[2, 3], &[1.0, 2.0, 3.0, 4.0, 5.0, 6.0]);
    w.know("x", &[2], &[-1.0, 1.0]);
    w.done(&node("Unsqueeze", &["a", "x"], &["u"]));
    w.done(&with_ints(node("Squeeze", &["u"], &["s"]), "axes", &[-1, 1]));
    assert_eq!(w.sizes("s"), vec![2, 3]);
    assert_eq!(w.value("s"), w.value("a"));
    assert_eq!(w.known_values("s"), w.known_values("a"));
    w.give("b", &[1, 3, 1], &[1.0, 2.0, 3.0]);
    w.done(&node("Squeeze", &["b"], &["c"]));
    assert_eq!(w.sizes("c"), vec![3]);
}

#[test]
fn split_and_concat_give_back_a_vector() {
    let mut w = World::new();
    w.know("x", &[5], &[1.0, 2.0, 3.0, 4.0, 5.0]);
    w.know("s", &[3], &[1.0, 0.0, 4.0]);
    w.done(&node("Split", &["x", "s"], &["a", "b", "c"]));
    let before = w.weights.clone();
    w.done(&node("Concat", &["a", "b", "c"], &["z"]));
    assert_eq!(w.known_values("z"), w.known_values("x"));
    assert_eq!(w.sizes("z"), vec![5]);
    assert_eq!(w.weights[..before.len()], before[..]);
    assert_eq!(w.weights[before.len()..], [("z".to_string(), bits(&[1.0, 2.0, 3.0, 4.0, 5.0]))]);
}

#[test]
fn large_sizes_go_through_a_shape() {
    let mut w = World::new();
    let a = w.cx.named_tensor("a", vec![Dim::Known(16777218), Dim::Known(2)]);
    w.tensors.insert("a", a);
    w.done(&node("Shape", &["a"], &["s"]));
    w.done(&node("Reshape", &["a", "s"], &["b"]));
    assert_eq!(w.sizes("b"), vec![16777218, 2]);
}

#[test]
fn no_nodes_change_nothing() {
    let mut w = World::new();
    w.know("a", &[1], &[4.0]);
    let result = process_onnx_nodes(
        &Vec::new(),
        &mut w.tensors,
        &mut w.cx,
        &mut w.weights,
        &mut w.known,
        &Single,
    );
    assert_eq!(result, Ok(()));
    assert_eq!((w.tensors.len(), w.cx.nodes.len(), w.weights.len(), w.known.len()), (1, 1, 1, 1));
}
