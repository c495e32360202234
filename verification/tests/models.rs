//! Whole models are read and imported.

use luminal_python::bits::FloatMath;
use luminal_python::decode::read_model;
use luminal_python::graph::Op;
use luminal_python::model::{ModelFault, OnnxGraphResult};
use luminal_python::proto::{
    external_location, AttributeDef, GraphDef, ModelDef, NodeDef, TensorDef, ValueDef,
};
use onnx_protobuf::Message;

struct Single;

impl FloatMath for Single {
    fn add(&self, a: u32, b: u32) -> u32 {
        (f32::from_bits(a) + f32::from_bits(b)).to_bits()
    }
    fn mul(&self, a: u32, b: u32) -> u32 {
        (f32::from_bits(a) * f32::from_bits(b)).to_bits()
    }
    fn div(&self, a: u32, b: u32) -> u32 {
        (f32::from_bits(a) / f32::from_bits(b)).to_bits()
    }
    fn rem(&self, a: u32, b: u32) -> u32 {
        (f32::from_bits(a) % f32::from_bits(b)).to_bits()
    }
    fn pow(&self, a: u32, b: u32) -> u32 {
        f32::from_bits(a).powf(f32::from_bits(b)).to_bits()
    }
    fn sqrt(&self, a: u32) -> u32 {
        f32::from_bits(a).sqrt().to_bits()
    }
    fn cos(&self, a: u32) -> u32 {
        f32::from_bits(a).cos().to_bits()
    }
    fn sin(&self, a: u32) -> u32 {
        f32::from_bits(a).sin().to_bits()
    }
    fn tanh(&self, a: u32) -> u32 {
        f32::from_bits(a).tanh().to_bits()
    }
}

fn bits(values: &[f32]) -> Vec<u32> {
    values.iter().map(|v| v.to_bits()).collect()
}

fn floats(values: &[u32]) -> Vec<f32> {
    values.iter().map(|v| f32::from_bits(*v)).collect()
}

fn names(list: &[&str]) -> Vec<String> {
    list.iter().map(|n| n.to_string()).collect()
}

fn value(name: &str, sizes: Option<&[i64]>) -> ValueDef {
    ValueDef {
        name: name.to_string(),
        shape: sizes.map(|s| s.iter().map(|n| Some(*n)).collect()),
    }
}

fn weights(name: &str, dims: &[i64], values: &[f32]) -> TensorDef {
    TensorDef {
        name: name.to_string(),
        dims: dims.to_vec(),
        data_type: 1,
        float_data: bits(values),
        int32_data: Vec::new(),
        int64_data: Vec::new(),
        double_data: Vec::new(),
        raw_data: Vec::new(),
        external_data: Vec::new(),
        data_location: 0,
    }
}

fn node(op_type: &str, input: &[&str], output: &[&str]) -> NodeDef {
    NodeDef {
        op_type: op_type.to_string(),
        input: names(input),
        output: names(output),
        attribute: Vec::new(),
    }
}

fn transposed_gemm(input: &[&str], output: &[&str]) -> NodeDef {
    let mut n = node("Gemm", input, output);
    n.attribute.push(AttributeDef {
        name: "transB".to_string(),
        f: 0,
        i: 1,
        ints: Vec::new(),
        t: None,
    });
    n
}

fn layer() -> ModelDef {
    ModelDef {
        graph: GraphDef {
            node: vec![transposed_gemm(&["x", "w"], &["y"])],
            initializer: vec![weights("w", &[3, 2], &[1.0, 2.0, 3.0, 4.0, 5.0, 6.0])],
            input: vec![value("x", Some(&[1, 2])), value("w", Some(&[3, 2])), value("q", None)],
            output: vec![value("y", Some(&[1, 3])), value("absent", None)],
        },
    }
}

fn import(model: &ModelDef, backend: &str) -> OnnxGraphResult {
    match OnnxGraphResult::try_parse_model(model, &Vec::new(), backend, &Single) {
        Ok(result) => result,
        Err(fault) => panic!("{:?}", fault),
    }
}

fn data(result: &OnnxGraphResult, name: &str) -> Option<Vec<f32>> {
    let id = *result.tensor_ids.get(name).unwrap();
    result.runtime.data_of(id).map(|v| floats(v))
}

#[test]
fn a_layer_for_the_processor() {
    let result = import(&layer(), "native");
    assert_eq!(result.backend(), "native");
    assert_eq!(result.input_names(), &names(&["x", "q"]));
    assert_eq!(result.output_names(), &names(&["y"]));
    assert_eq!(result.output_shapes(), &vec![vec![1, 3]]);
    assert_eq!(result.tensor_names(), names(&["x", "w", "w_kn", "y"]));
    assert_eq!(result.context.outputs.len(), 1);
    assert_eq!(result.context.outputs[0].id, *result.tensor_ids.get("y").unwrap());
    assert_eq!(data(&result, "x"), Some(vec![0.0, 0.0]));
    assert_eq!(data(&result, "w"), Some(vec![1.0, 2.0, 3.0, 4.0, 5.0, 6.0]));
    assert_eq!(data(&result, "w_kn"), None);
    assert_eq!(data(&result, "y"), None);
}

#[test]
fn a_layer_for_a_graphics_processor() {
    let result = import(&layer(), "cuda");
    assert_eq!(result.backend(), "cuda");
    assert_eq!(data(&result, "x"), Some(vec![0.0, 0.0]));
    assert_eq!(data(&result, "w"), Some(vec![1.0, 2.0, 3.0, 4.0, 5.0, 6.0]));
    assert_eq!(data(&result, "w_kn"), Some(vec![1.0, 3.0, 5.0, 2.0, 4.0, 6.0]));
}

#[test]
fn another_name_of_the_weights() {
    let mut model = layer();
    model.graph.node =
        vec![node("Identity", &["w"], &["v"]), transposed_gemm(&["x", "v"], &["y"])];
    let result = import(&model, "cuda");
    assert_eq!(data(&result, "v_kn"), Some(vec![1.0, 3.0, 5.0, 2.0, 4.0, 6.0]));
}

#[test]
fn small_initializers_are_known() {
    let mut model = layer();
    model.graph.initializer = vec![weights("a", &[1], &[2.0]), weights("b", &[1], &[3.0])];
    model.graph.node = vec![node("Mul", &["a", "b"], &["y"])];
    let result = import(&model, "native");
    assert_eq!(data(&result, "y"), Some(vec![6.0]));
    let id = *result.tensor_ids.get("y").unwrap();
    assert!(matches!(result.context.nodes[id].op, Op::Load(_)));
    let many = vec![1.0; 33];
    model.graph.initializer = vec![weights("a", &[33], &many), weights("b", &[1], &[3.0])];
    let result = import(&model, "native");
    let id = *result.tensor_ids.get("y").unwrap();
    assert!(matches!(result.context.nodes[id].op, Op::Binary(_)));
    assert_eq!(data(&result, "y"), None);
}

#[test]
fn outputs_need_sizes() {
    let mut model = layer();
    model.graph.output = vec![value("y", None)];
    match OnnxGraphResult::try_parse_model(&model, &Vec::new(), "native", &Single) {
        Err(ModelFault::Output(message)) => assert_eq!(
            message,
            "Output tensor 'y' has no shape information in the ONNX model"
        ),
        _ => panic!(),
    }
}

#[test]
fn nodes_that_fail_stop_the_import() {
    let mut model = layer();
    model.graph.node.push(node("Sqrt", &["z"], &["r"]));
    match OnnxGraphResult::try_parse_model(&model, &Vec::new(), "native", &Single) {
        Err(ModelFault::Node(message)) => {
            assert_eq!(message, "Sqrt: missing input tensor 'z'")
        }
        _ => panic!(),
    }
    model.graph.node = vec![node("Sqrt", &["x", "x"], &["r"])];
    assert!(matches!(
        OnnxGraphResult::try_parse_model(&model, &Vec::new(), "native", &Single),
        Err(ModelFault::Rejected)
    ));
}

#[test]
fn a_sum_with_weights() {
    let model = ModelDef {
        graph: GraphDef {
            node: vec![node("Add", &["x", "w"], &["y"])],
            initializer: vec![weights("w", &[2], &[10.0, 20.0])],
            input: vec![value("w", Some(&[2])), value("x", Some(&[2]))],
            output: vec![value("y", Some(&[2]))],
        },
    };
    let result = match OnnxGraphResult::parse_model(&model, &Vec::new(), "native", &Single) {
        Ok(result) => result,
        Err(message) => panic!("{}", message),
    };
    assert_eq!(result.input_names(), &names(&["x"]));
    assert_eq!(result.output_names(), &names(&["y"]));
    assert_eq!(result.output_shapes(), &vec![vec![2]]);
    let mut keys = result.tensor_names();
    keys.sort();
    assert_eq!(keys, names(&["w", "x", "y"]));
    assert_eq!(data(&result, "w"), Some(vec![10.0, 20.0]));
}

#[test]
fn weights_and_their_columns() {
    let model = ModelDef {
        graph: GraphDef {
            node: vec![transposed_gemm(&["x", "w"], &["y"])],
            initializer: vec![weights("w", &[2, 3], &[1.0, 2.0, 3.0, 4.0, 5.0, 6.0])],
            input: vec![value("x", Some(&[1, 3]))],
            output: vec![value("y", Some(&[1, 2]))],
        },
    };
    let result = import(&model, "cuda");
    let columns = vec![1.0, 4.0, 2.0, 5.0, 3.0, 6.0];
    assert_eq!(data(&result, "w"), Some(vec![1.0, 2.0, 3.0, 4.0, 5.0, 6.0]));
    assert_eq!(data(&result, "w_kn"), Some(columns.clone()));
    assert!(result.withheld.is_empty());
    let native = import(&model, "native");
    let id = *native.tensor_ids.get("w_kn").unwrap();
    assert_eq!(data(&native, "w_kn"), None);
    assert_eq!(native.withheld, vec![(id, bits(&columns))]);
}

#[test]
fn data_is_given_by_name() {
    let mut result = import(&layer(), "native");
    assert_eq!(result.set_input("x", bits(&[7.0, 8.0])), Ok(()));
    assert_eq!(data(&result, "x"), Some(vec![7.0, 8.0]));
    assert_eq!(result.set_input("x", bits(&[9.0, 9.5])), Ok(()));
    assert_eq!(data(&result, "x"), Some(vec![9.0, 9.5]));
    assert_eq!(result.set_input("nope", Vec::new()), Err("Unknown input tensor: nope".to_string()));
    assert_eq!(result.output_id("y"), Ok(*result.tensor_ids.get("y").unwrap()));
    assert_eq!(result.output_id("nope"), Err("Unknown output tensor: nope".to_string()));
}

#[test]
fn elements_in_files() {
    let mut model = layer();
    let t = &mut model.graph.initializer[0];
    t.float_data = Vec::new();
    t.data_location = 1;
    t.external_data = vec![
        ("location".to_string(), "weights.bin".to_string()),
        ("offset".to_string(), "4096".to_string()),
        ("length".to_string(), "24".to_string()),
    ];
    let location = external_location(&model.graph.initializer[0]).unwrap();
    assert_eq!(location.path, "weights.bin");
    assert_eq!(location.offset, 4096);
    assert_eq!(location.length, Some(24));
    let bytes: Vec<u8> =
        [1.0f32, 2.0, 3.0, 4.0, 5.0, 6.0].iter().flat_map(|v| v.to_le_bytes()).collect();
    let stored = vec![Some(bytes)];
    let result = OnnxGraphResult::try_parse_model(&model, &stored, "native", &Single);
    let result = match result {
        Ok(result) => result,
        Err(fault) => panic!("{:?}", fault),
    };
    assert_eq!(data(&result, "w"), Some(vec![1.0, 2.0, 3.0, 4.0, 5.0, 6.0]));
    let without = import(&model, "native");
    assert_eq!(data(&without, "w"), None);
    model.graph.initializer[0].external_data[1].1 = "4x".to_string();
    assert!(external_location(&model.graph.initializer[0]).is_none());
    model.graph.initializer[0].external_data.remove(1);
    assert_eq!(external_location(&model.graph.initializer[0]).unwrap().offset, 0);
    model.graph.initializer[0].data_location = 0;
    assert!(external_location(&model.graph.initializer[0]).is_none());
}

fn message() -> onnx_protobuf::ModelProto {
    let mut model = onnx_protobuf::ModelProto::new();
    let graph = model.graph.mut_or_insert_default();
    let mut n = onnx_protobuf::NodeProto::new();
    n.op_type = "Gemm".to_string();
    n.input = names(&["x", "w"]);
    n.output = names(&["y"]);
    let mut a = onnx_protobuf::AttributeProto::new();
    a.name = "transB".to_string();
    a.i = 1;
    a.f = 0.5;
    a.ints = vec![3, -4];
    let mut inner = onnx_protobuf::TensorProto::new();
    inner.data_type = 7;
    inner.int64_data = vec![-9];
    inner.double_data = vec![0.25];
    a.t = onnx_protobuf::AttributeProto::new().t;
    *a.t.mut_or_insert_default() = inner;
    n.attribute.push(a);
    graph.node.push(n);
    let mut t = onnx_protobuf::TensorProto::new();
    t.name = "w".to_string();
    t.dims = vec![3, 2];
    t.data_type = 1;
    t.float_data = vec![1.0, 2.0, 3.0, 4.0, 5.0, 6.0];
    t.int32_data = vec![5];
    t.raw_data = vec![1, 2, 3];
    let mut entry = onnx_protobuf::StringStringEntryProto::new();
    entry.key = "location".to_string();
    entry.value = "file".to_string();
    t.external_data.push(entry);
    t.data_location =
        protobuf::EnumOrUnknown::new(onnx_protobuf::tensor_proto::DataLocation::EXTERNAL);
    graph.initializer.push(t);
    graph.input.push(message_value("x", &[1, 2]));
    graph.output.push(message_value("y", &[1, 3]));
    model
}

fn message_value(name: &str, sizes: &[i64]) -> onnx_protobuf::ValueInfoProto {
    let mut value = onnx_protobuf::ValueInfoProto::new();
    value.name = name.to_string();
    let mut tensor = onnx_protobuf::type_proto::Tensor::new();
    for size in sizes {
        let mut d = onnx_protobuf::tensor_shape_proto::Dimension::new();
        d.value = Some(onnx_protobuf::tensor_shape_proto::dimension::Value::DimValue(*size));
        tensor.shape.mut_or_insert_default().dim.push(d);
    }
    value.type_.mut_or_insert_default().value =
        Some(onnx_protobuf::type_proto::Value::TensorType(tensor));
    value
}

#[test]
fn models_are_read_from_bytes() {
    let bytes = message().write_to_bytes().unwrap();
    let model = match read_model(&bytes) {
        Ok(model) => model,
        Err(message) => panic!("{}", message),
    };
    let graph = &model.graph;
    assert_eq!(graph.node.len(), 1);
    assert_eq!(graph.node[0].op_type, "Gemm");
    assert_eq!(graph.node[0].input, names(&["x", "w"]));
    assert_eq!(graph.node[0].output, names(&["y"]));
    let a = &graph.node[0].attribute[0];
    assert_eq!((a.name.as_str(), a.i, a.f), ("transB", 1, 0.5f32.to_bits()));
    assert_eq!(a.ints, vec![3, -4]);
    assert_eq!(a.t.as_ref().unwrap().int64_data, vec![-9]);
    assert_eq!(a.t.as_ref().unwrap().data_type, 7);
    assert_eq!(a.t.as_ref().unwrap().double_data, vec![0.25f64.to_bits()]);
    let t = &graph.initializer[0];
    assert_eq!((t.name.as_str(), t.data_type, t.data_location), ("w", 1, 1));
    assert_eq!(t.dims, vec![3, 2]);
    assert_eq!(t.float_data, bits(&[1.0, 2.0, 3.0, 4.0, 5.0, 6.0]));
    assert_eq!(t.int32_data, vec![5]);
    assert_eq!(t.raw_data, vec![1, 2, 3]);
    assert_eq!(t.external_data, vec![("location".to_string(), "file".to_string())]);
    assert_eq!(graph.input[0].name, "x");
    assert_eq!(graph.input[0].shape, Some(vec![Some(1), Some(2)]));
    assert_eq!(graph.output[0].name, "y");
    assert_eq!(graph.output[0].shape, Some(vec![Some(1), Some(3)]));
}

#[test]
fn sizes_that_a_model_leaves_open_are_absent() {
    let mut model = message();
    let mut open = message_value("z", &[4]);
    if let Some(onnx_protobuf::type_proto::Value::TensorType(t)) =
        &mut open.type_.mut_or_insert_default().value
    {
        let mut d = onnx_protobuf::tensor_shape_proto::Dimension::new();
        d.value = Some(onnx_protobuf::tensor_shape_proto::dimension::Value::DimParam(
            "batch".to_string(),
        ));
        t.shape.mut_or_insert_default().dim.push(d);
    }
    let graph = model.graph.mut_or_insert_default();
    graph.input.push(open);
    let mut bare = onnx_protobuf::ValueInfoProto::new();
    bare.name = "bare".to_string();
    graph.input.push(bare);
    let read = match read_model(&model.write_to_bytes().unwrap()) {
        Ok(model) => model,
        Err(message) => panic!("{}", message),
    };
    assert_eq!(read.graph.input[1].shape, Some(vec![Some(4), None]));
    assert_eq!(read.graph.input[2].shape, None);
}

#[test]
fn bytes_that_are_no_model() {
    let error = onnx_protobuf::ModelProto::parse_from_bytes(&[255, 255, 255]).unwrap_err();
    match read_model(&vec![255, 255, 255]) {
        Err(message) => assert_eq!(message, format!("Failed to parse Onnx Model: {}", error)),
        Ok(_) => panic!(),
    }
}

#[test]
fn bytes_with_deep_groups() {
    match read_model(&vec![0x0b; 1 << 20]) {
        Err(message) => assert_eq!(
            message,
            "Failed to parse Onnx Model: groups are nested too deeply"
        ),
        Ok(_) => panic!(),
    }
}
