//! Graphs become graphs of `luminal`.

use luminal::graph::NodeIndex;
use luminal::op::{self, get_vec_from_tensor, InputTensor};
use luminal::tensor::Tensor;
use luminal_python::graph::{
    broadcast_to, Binary, ComputeGraph, DType, GraphTensor, Op, Reduction, Unary,
};
use luminal_python::lower::{list_numbers, list_wholes, lower, LoweredGraph};
use luminal_python::shape::Dim;

fn named(cx: &mut ComputeGraph, name: &str, sizes: &[usize]) -> GraphTensor {
    cx.named_tensor(name, sizes.iter().map(|s| Dim::Known(*s)).collect())
}

fn set(lowered: &mut LoweredGraph, tensor: &GraphTensor, values: &[f32]) {
    let id = NodeIndex::new(lowered.ids[tensor.id]);
    lowered.graph.set_tensor(id, 0, Tensor::new(values.to_vec()));
}

fn run(lowered: &mut LoweredGraph, tensor: &GraphTensor) -> Vec<f32> {
    let id = NodeIndex::new(lowered.ids[tensor.id]);
    lowered.graph.no_delete.insert(id);
    lowered.graph.execute();
    let result = lowered.graph.get_tensor_ref(id, 0).unwrap();
    get_vec_from_tensor(&InputTensor::Borrowed(result)).clone()
}

#[test]
fn luminal_computes_sums_of_repeated_tensors() {
    let mut cx = ComputeGraph::new();
    let a = named(&mut cx, "a", &[2, 3]);
    let b = named(&mut cx, "b", &[3]);
    let wide = broadcast_to(&b, &vec![2, 3]);
    let y = cx.binary(Binary::Add, &a, &wide);
    let mut lowered = lower(&cx).unwrap();
    set(&mut lowered, &a, &[1.0, 2.0, 3.0, 4.0, 5.0, 6.0]);
    set(&mut lowered, &b, &[10.0, 20.0, 30.0]);
    assert_eq!(run(&mut lowered, &y), vec![11.0, 22.0, 33.0, 14.0, 25.0, 36.0]);
}

#[test]
fn luminal_reads_columns_in_order() {
    let mut cx = ComputeGraph::new();
    let a = named(&mut cx, "a", &[2, 3]);
    let flipped = a.permute(&vec![1, 0]);
    let y = cx.unary(Unary::Sqrt, &flipped);
    let mut lowered = lower(&cx).unwrap();
    set(&mut lowered, &a, &[1.0, 4.0, 9.0, 16.0, 25.0, 36.0]);
    assert_eq!(run(&mut lowered, &y), vec![1.0, 4.0, 2.0, 5.0, 3.0, 6.0]);
}

#[test]
fn results_are_stored_in_order() {
    let mut cx = ComputeGraph::new();
    let a = named(&mut cx, "a", &[2, 3]);
    let flipped = a.permute(&vec![1, 0]);
    cx.output(&a);
    cx.output(&flipped);
    let mut lowered = lower(&cx).unwrap();
    assert_eq!(lowered.outputs[0], lowered.ids[a.id]);
    let id = NodeIndex::new(lowered.outputs[1]);
    lowered.graph.no_delete.insert(id);
    set(&mut lowered, &a, &[1.0, 2.0, 3.0, 4.0, 5.0, 6.0]);
    lowered.graph.execute();
    let result = lowered.graph.get_tensor_ref(id, 0).unwrap();
    let values = get_vec_from_tensor(&InputTensor::Borrowed(result)).clone();
    assert_eq!(values, vec![1.0, 4.0, 2.0, 5.0, 3.0, 6.0]);
}

#[test]
fn luminal_reduces_along_axes() {
    let mut cx = ComputeGraph::new();
    let a = named(&mut cx, "a", &[2, 3]);
    let sums = cx.reduce(Reduction::Sum, &a, 1);
    let maxima = cx.reduce(Reduction::Max, &a.permute(&vec![1, 0]), 1);
    let spread = maxima.expand_dim(0, Dim::Known(2));
    let doubled = cx.binary(Binary::Mul, &spread, &spread);
    let mut lowered = lower(&cx).unwrap();
    lowered.graph.no_delete.insert(NodeIndex::new(lowered.ids[sums.id]));
    lowered.graph.no_delete.insert(NodeIndex::new(lowered.ids[a.id]));
    set(&mut lowered, &a, &[1.0, 2.0, 3.0, 4.0, 5.0, 6.0]);
    assert_eq!(run(&mut lowered, &doubled), vec![16.0, 25.0, 36.0, 16.0, 25.0, 36.0]);
    assert_eq!(run(&mut lowered, &sums), vec![6.0, 15.0]);
}

#[test]
fn luminal_operators_of_both_kinds() {
    let mut cx = ComputeGraph::new();
    let a = named(&mut cx, "a", &[3]);
    let b = named(&mut cx, "b", &[3]);
    let ops = [
        cx.unary(Unary::Exp2, &a),
        cx.unary(Unary::Recip, &a),
        cx.unary(Unary::Sin, &a),
        cx.binary(Binary::Rem, &b, &a),
        cx.binary(Binary::Lt, &a, &b),
    ];
    let mut lowered = lower(&cx).unwrap();
    for tensor in &ops {
        lowered.graph.no_delete.insert(NodeIndex::new(lowered.ids[tensor.id]));
    }
    lowered.graph.no_delete.insert(NodeIndex::new(lowered.ids[a.id]));
    lowered.graph.no_delete.insert(NodeIndex::new(lowered.ids[b.id]));
    set(&mut lowered, &a, &[1.0, 2.0, 4.0]);
    set(&mut lowered, &b, &[5.0, 5.0, 3.0]);
    assert_eq!(run(&mut lowered, &ops[0]), vec![2.0, 4.0, 16.0]);
    assert_eq!(run(&mut lowered, &ops[1]), vec![1.0, 0.5, 0.25]);
    assert_eq!(run(&mut lowered, &ops[2]), vec![1.0f32.sin(), 2.0f32.sin(), 4.0f32.sin()]);
    assert_eq!(run(&mut lowered, &ops[3]), vec![0.0, 1.0, 3.0]);
    assert_eq!(run(&mut lowered, &ops[4]), vec![1.0, 1.0, 0.0]);
}

fn name_of(lowered: &LoweredGraph, tensor: &GraphTensor) -> String {
    let id = NodeIndex::new(lowered.ids[tensor.id]);
    format!("{:?}", lowered.graph.graph.node_weight(id).unwrap())
}

/// Sets the elements that the nodes of a graph stand for by themselves.
fn set_own(lowered: &mut LoweredGraph, cx: &ComputeGraph) {
    for (node, id) in cx.nodes.iter().zip(&lowered.ids) {
        if let Some(numbers) = list_numbers(&node.op) {
            let values: Vec<f32> = numbers.iter().map(|b| f32::from_bits(*b)).collect();
            lowered.graph.set_tensor(NodeIndex::new(*id), 0, Tensor::new(values));
        }
    }
}

#[test]
fn functions_are_named_and_connected() {
    let mut cx = ComputeGraph::new();
    let a = named(&mut cx, "weights", &[2]);
    let y = cx.binary(Binary::Pow, &a, &a);
    let mut lowered = lower(&cx).unwrap();
    assert_eq!(name_of(&lowered, &a), "weights Load");
    assert_eq!(name_of(&lowered, &y), "Pow");
    let id = NodeIndex::new(lowered.ids[y.id]);
    let power = op::Function(
        "Pow".to_string(),
        Box::new(|inputs| {
            let x = get_vec_from_tensor(&inputs[0].0);
            let y = get_vec_from_tensor(&inputs[1].0);
            vec![Tensor::new(x.iter().zip(y).map(|(x, y)| x.powf(*y)).collect::<Vec<f32>>())]
        }),
    );
    *lowered.graph.graph.node_weight_mut(id).unwrap() = Box::new(power);
    set(&mut lowered, &a, &[2.0, 3.0]);
    assert_eq!(run(&mut lowered, &y), vec![4.0, 27.0]);
}

#[test]
fn names_of_functions_hold_what_they_depend_on() {
    let mut cx = ComputeGraph::new();
    let a = named(&mut cx, "a", &[2, 2]);
    let one = cx.constant(1.0f32.to_bits());
    let whole = cx.constant_int(-7);
    let range = cx.arange(12);
    let upper = cx.triangle(true, 2, -1);
    let lower_half = cx.triangle(false, 3, 2);
    let half = cx.unary(Unary::Cast(DType::F16), &a);
    let int = cx.unary(Unary::Cast(DType::Int), &a);
    let sum = cx.binary(Binary::IntAdd, &int, &int);
    let product = cx.binary(Binary::IntMul, &int, &int);
    let lowered = lower(&cx).unwrap();
    assert_eq!(name_of(&lowered, &one), "Constant 1065353216");
    assert_eq!(name_of(&lowered, &whole), "Integer -7");
    assert_eq!(name_of(&lowered, &range), "Arange 12");
    assert_eq!(name_of(&lowered, &upper), "Upper 2 -1");
    assert_eq!(name_of(&lowered, &lower_half), "Lower 3 2");
    assert_eq!(name_of(&lowered, &half), "Cast F16");
    assert_eq!(name_of(&lowered, &int), "Cast Int");
    assert_eq!(name_of(&lowered, &sum), "IntAdd");
    assert_eq!(name_of(&lowered, &product), "IntMul");
}

#[test]
fn elements_that_nodes_stand_for_by_themselves() {
    let bits = |values: &[f32]| Some(values.iter().map(|v| v.to_bits()).collect::<Vec<u32>>());
    assert_eq!(list_numbers(&Op::Constant(7)), Some(vec![7]));
    assert_eq!(list_numbers(&Op::Triangle(true, 2, 0)), bits(&[1.0, 1.0, 0.0, 1.0]));
    assert_eq!(list_numbers(&Op::Triangle(false, 2, -1)), bits(&[0.0, 0.0, 1.0, 0.0]));
    assert_eq!(list_numbers(&Op::Triangle(true, usize::MAX, 0)), None);
    assert_eq!(list_numbers(&Op::Arange(3)), None);
    assert_eq!(list_wholes(&Op::Arange(3)), Some(vec![0, 1, 2]));
    assert_eq!(list_wholes(&Op::Integer(-4)), Some(vec![-4]));
    assert_eq!(list_wholes(&Op::Gather), None);
}

#[test]
fn luminal_reads_parts_of_axes() {
    let mut cx = ComputeGraph::new();
    let a = named(&mut cx, "a", &[2, 3]);
    let part = |start, end| (Dim::Known(start), Dim::Known(end));
    let y = cx.slice(&a.permute(&vec![1, 0]), vec![part(1, 3), part(0, 1)]);
    let mut lowered = lower(&cx).unwrap();
    set(&mut lowered, &a, &[1.0, 2.0, 3.0, 4.0, 5.0, 6.0]);
    assert_eq!(run(&mut lowered, &y), vec![2.0, 3.0]);
}

#[test]
fn luminal_puts_tensors_one_after_the_other() {
    let mut cx = ComputeGraph::new();
    let a = named(&mut cx, "a", &[2, 1]);
    let b = named(&mut cx, "b", &[2, 2]);
    let y = cx.concat(&a, &b, 1);
    let mut lowered = lower(&cx).unwrap();
    set(&mut lowered, &a, &[1.0, 2.0]);
    set(&mut lowered, &b, &[3.0, 4.0, 5.0, 6.0]);
    assert_eq!(run(&mut lowered, &y), vec![1.0, 3.0, 4.0, 2.0, 5.0, 6.0]);
}

#[test]
fn luminal_multiplies_matrices() {
    let mut cx = ComputeGraph::new();
    let a = named(&mut cx, "a", &[2, 2]);
    let b = named(&mut cx, "b", &[2, 3]);
    let y = cx.matmul(&a, &b);
    let mut lowered = lower(&cx).unwrap();
    set(&mut lowered, &a, &[1.0, 2.0, 3.0, 4.0]);
    set(&mut lowered, &b, &[1.0, 2.0, 3.0, 4.0, 5.0, 6.0]);
    assert_eq!(run(&mut lowered, &y), vec![9.0, 12.0, 15.0, 19.0, 26.0, 33.0]);
}

#[test]
fn luminal_takes_means_and_quotients_and_chooses() {
    let mut cx = ComputeGraph::new();
    let a = named(&mut cx, "a", &[2, 2]);
    let mean = cx.mean(&a, &vec![1]);
    let mut lowered = lower(&cx).unwrap();
    set_own(&mut lowered, &cx);
    set(&mut lowered, &a, &[1.0, 3.0, 4.0, 8.0]);
    assert_eq!(run(&mut lowered, &mean), vec![2.0, 6.0]);
    let mut cx = ComputeGraph::new();
    let a = named(&mut cx, "a", &[2]);
    let b = named(&mut cx, "b", &[2]);
    let y = cx.divide(&a, &b);
    let mut lowered = lower(&cx).unwrap();
    set(&mut lowered, &a, &[3.0, 5.0]);
    set(&mut lowered, &b, &[2.0, 4.0]);
    assert_eq!(run(&mut lowered, &y), vec![1.5, 1.25]);
    let mut cx = ComputeGraph::new();
    let c = named(&mut cx, "c", &[2]);
    let a = named(&mut cx, "a", &[2]);
    let b = named(&mut cx, "b", &[2]);
    let y = cx.cond(&a, &c, &b);
    let mut lowered = lower(&cx).unwrap();
    set_own(&mut lowered, &cx);
    set(&mut lowered, &c, &[1.0, 0.0]);
    set(&mut lowered, &a, &[3.0, 5.0]);
    set(&mut lowered, &b, &[2.0, 4.0]);
    assert_eq!(run(&mut lowered, &y), vec![3.0, 4.0]);
}

#[test]
fn what_luminal_cannot_hold_is_not_lowered() {
    let mut cx = ComputeGraph::new();
    let a = named(&mut cx, "a", &[1, 1, 1, 1, 1, 1, 1]);
    let _ = cx.unary(Unary::Sqrt, &a);
    assert!(lower(&cx).is_none());
    let mut open = ComputeGraph::new();
    let b = open.named_tensor("b", vec![Dim::Dynamic]);
    let _ = open.unary(Unary::Sqrt, &b);
    assert!(lower(&open).is_none());
    let mut wide = ComputeGraph::new();
    let c = named(&mut wide, "c", &[1, 1, 1, 1, 1, 1, 1]);
    assert!(lower(&wide).is_some());
    wide.output(&c);
    assert!(lower(&wide).is_none());
}
