//! Models as they are stored: the messages that `onnx_protobuf` reads, and what
//! the importer takes over from them.

use crate::names::join;
#[allow(unused_imports)]
use crate::names::texts;
use crate::proto::{AttributeDef, GraphDef, ModelDef, NodeDef, TensorDef, ValueDef};
use crate::wire::check_groups;
#[allow(unused_imports)]
use crate::wire::is_shallow;
use onnx_protobuf::Message;
use vstd::prelude::*;

verus! {

/// The contents of a tensor of a model.
#[verifier::ext_equal]
pub struct TensorContents {
    pub name: Seq<char>,
    pub dims: Seq<i64>,
    pub data_type: i32,
    pub float_data: Seq<u32>,
    pub int32_data: Seq<i32>,
    pub int64_data: Seq<i64>,
    pub double_data: Seq<u64>,
    pub raw_data: Seq<u8>,
    pub external_data: Seq<(Seq<char>, Seq<char>)>,
    pub data_location: i32,
}

/// The contents of an attribute of a node.
#[verifier::ext_equal]
pub struct AttributeContents {
    pub name: Seq<char>,
    pub f: u32,
    pub i: i64,
    pub ints: Seq<i64>,
    pub t: Option<TensorContents>,
}

/// The contents of a node.
#[verifier::ext_equal]
pub struct NodeContents {
    pub op_type: Seq<char>,
    pub input: Seq<Seq<char>>,
    pub output: Seq<Seq<char>>,
    pub attribute: Seq<AttributeContents>,
}

/// The contents of an input or an output of a model.
#[verifier::ext_equal]
pub struct ValueContents {
    pub name: Seq<char>,
    pub shape: Option<Seq<Option<i64>>>,
}

/// The contents of a model.
#[verifier::ext_equal]
pub struct ModelContents {
    pub node: Seq<NodeContents>,
    pub initializer: Seq<TensorContents>,
    pub input: Seq<ValueContents>,
    pub output: Seq<ValueContents>,
}

impl View for TensorDef {
    type V = TensorContents;

    open spec fn view(&self) -> TensorContents {
        TensorContents {
            name: self.name@,
            dims: self.dims@,
            data_type: self.data_type,
            float_data: self.float_data@,
            int32_data: self.int32_data@,
            int64_data: self.int64_data@,
            double_data: self.double_data@,
            raw_data: self.raw_data@,
            external_data: self.external_data@.map_values(
                |entry: (String, String)| (entry.0@, entry.1@),
            ),
            data_location: self.data_location,
        }
    }
}

impl View for AttributeDef {
    type V = AttributeContents;

    open spec fn view(&self) -> AttributeContents {
        AttributeContents {
            name: self.name@,
            f: self.f,
            i: self.i,
            ints: self.ints@,
            t: match self.t {
                Some(t) => Some(t@),
                None => None,
            },
        }
    }
}

impl View for NodeDef {
    type V = NodeContents;

    open spec fn view(&self) -> NodeContents {
        NodeContents {
            op_type: self.op_type@,
            input: texts(self.input@),
            output: texts(self.output@),
            attribute: self.attribute@.map_values(|a: AttributeDef| a@),
        }
    }
}

impl View for ValueDef {
    type V = ValueContents;

    open spec fn view(&self) -> ValueContents {
        ValueContents {
            name: self.name@,
            shape: match self.shape {
                Some(dims) => Some(dims@),
                None => None,
            },
        }
    }
}

impl View for ModelDef {
    type V = ModelContents;

    open spec fn view(&self) -> ModelContents {
        ModelContents {
            node: self.graph.node@.map_values(|n: NodeDef| n@),
            initializer: self.graph.initializer@.map_values(|t: TensorDef| t@),
            input: self.graph.input@.map_values(|v: ValueDef| v@),
            output: self.graph.output@.map_values(|v: ValueDef| v@),
        }
    }
}

#[verifier::external_type_specification]
#[verifier::external_body]
pub struct ExModelProto(onnx_protobuf::ModelProto);

#[verifier::external_type_specification]
#[verifier::external_body]
pub struct ExNodeProto(onnx_protobuf::NodeProto);

#[verifier::external_type_specification]
#[verifier::external_body]
pub struct ExAttributeProto(onnx_protobuf::AttributeProto);

#[verifier::external_type_specification]
#[verifier::external_body]
pub struct ExTensorProto(onnx_protobuf::TensorProto);

#[verifier::external_type_specification]
#[verifier::external_body]
pub struct ExValueInfoProto(onnx_protobuf::ValueInfoProto);

/// The nodes, initializers, inputs and outputs that a model message holds.
pub uninterp spec fn model_contents(model: onnx_protobuf::ModelProto) -> ModelContents;

/// What a node message holds.
pub uninterp spec fn node_contents(node: onnx_protobuf::NodeProto) -> NodeContents;

/// What an attribute message holds.
pub uninterp spec fn attribute_contents(attribute: onnx_protobuf::AttributeProto) -> AttributeContents;

/// What a tensor message holds.
pub uninterp spec fn tensor_contents(tensor: onnx_protobuf::TensorProto) -> TensorContents;

/// What a message about an input or an output holds.
pub uninterp spec fn value_contents(value: onnx_protobuf::ValueInfoProto) -> ValueContents;

/// The contents of the model that some bytes encode, if they encode one.
pub uninterp spec fn decoded(bytes: Seq<u8>) -> Option<ModelContents>;

/// What the reader says of bytes that encode no model.
pub uninterp spec fn decode_failure(bytes: Seq<u8>) -> Seq<char>;

/// Calls `ModelProto::parse_from_bytes` of `onnx_protobuf`. The contract names
/// what the message holds, and the text of the error, after the bytes: both
/// depend on nothing else. Groups are skipped by recursion, without a limit but the
/// stack, so the contract asks that they are not nested deeply.
#[verifier::external_body]
fn parse_from_bytes(bytes: &[u8]) -> (parsed: Result<onnx_protobuf::ModelProto, String>)
    requires
        is_shallow(bytes@),
    ensures
        match parsed {
            Ok(model) => decoded(bytes@) == Some(model_contents(model)),
            Err(text) => decoded(bytes@) is None && text@ == decode_failure(bytes@),
        },
{
    onnx_protobuf::ModelProto::parse_from_bytes(bytes).map_err(|e| e.to_string())
}

/// Reads the field `graph.node` of a model message.
#[verifier::external_body]
fn nodes_of(model: &onnx_protobuf::ModelProto) -> (nodes: &Vec<onnx_protobuf::NodeProto>)
    ensures
        nodes@.map_values(|n: onnx_protobuf::NodeProto| node_contents(n)) == model_contents(
            *model,
        ).node,
{
    &model.graph.node
}

/// Reads the field `graph.initializer` of a model message.
#[verifier::external_body]
fn initializers_of(model: &onnx_protobuf::ModelProto) -> (tensors: &Vec<onnx_protobuf::TensorProto>)
    ensures
        tensors@.map_values(|t: onnx_protobuf::TensorProto| tensor_contents(t)) == model_contents(
            *model,
        ).initializer,
{
    &model.graph.initializer
}

/// Reads the field `graph.input` of a model message.
#[verifier::external_body]
fn inputs_of(model: &onnx_protobuf::ModelProto) -> (values: &Vec<onnx_protobuf::ValueInfoProto>)
    ensures
        values@.map_values(|v: onnx_protobuf::ValueInfoProto| value_contents(v)) == model_contents(
            *model,
        ).input,
{
    &model.graph.input
}

/// Reads the field `graph.output` of a model message.
#[verifier::external_body]
fn outputs_of(model: &onnx_protobuf::ModelProto) -> (values: &Vec<onnx_protobuf::ValueInfoProto>)
    ensures
        values@.map_values(|v: onnx_protobuf::ValueInfoProto| value_contents(v)) == model_contents(
            *model,
        ).output,
{
    &model.graph.output
}

/// Takes over the fields of a tensor message that the importer reads. Numbers of
/// single and double precision become their bits, and the place of the elements
/// the number that encodes it.
#[verifier::external_body]
fn take_tensor(tensor: &onnx_protobuf::TensorProto) -> (taken: TensorDef)
    ensures
        taken@ == tensor_contents(*tensor),
{
    TensorDef {
        name: tensor.name.clone(),
        dims: tensor.dims.clone(),
        data_type: tensor.data_type,
        float_data: tensor.float_data.iter().map(|x| x.to_bits()).collect(),
        int32_data: tensor.int32_data.clone(),
        int64_data: tensor.int64_data.clone(),
        double_data: tensor.double_data.iter().map(|x| x.to_bits()).collect(),
        raw_data: tensor.raw_data.clone(),
        external_data: (tensor.external_data.iter())
            .map(|e| (e.key.clone(), e.value.clone()))
            .collect(),
        data_location: tensor.data_location.value(),
    }
}

/// Takes over the name, the number (as its bits), the whole number and the list
/// of whole numbers of an attribute message.
#[verifier::external_body]
fn take_settings(attribute: &onnx_protobuf::AttributeProto) -> (taken: (String, u32, i64, Vec<i64>))
    ensures
        taken.0@ == attribute_contents(*attribute).name,
        taken.1 == attribute_contents(*attribute).f,
        taken.2 == attribute_contents(*attribute).i,
        taken.3@ == attribute_contents(*attribute).ints,
{
    (attribute.name.clone(), attribute.f.to_bits(), attribute.i, attribute.ints.clone())
}

/// Reads the field `t` of an attribute message.
#[verifier::external_body]
fn tensor_of(attribute: &onnx_protobuf::AttributeProto) -> (tensor: Option<&onnx_protobuf::TensorProto>)
    ensures
        match tensor {
            Some(t) => attribute_contents(*attribute).t == Some(tensor_contents(*t)),
            None => attribute_contents(*attribute).t is None,
        },
{
    attribute.t.as_ref()
}

/// Takes over the type and the names of the inputs and outputs of a node
/// message.
#[verifier::external_body]
fn take_names(node: &onnx_protobuf::NodeProto) -> (taken: (String, Vec<String>, Vec<String>))
    ensures
        taken.0@ == node_contents(*node).op_type,
        texts(taken.1@) == node_contents(*node).input,
        texts(taken.2@) == node_contents(*node).output,
{
    (node.op_type.clone(), node.input.clone(), node.output.clone())
}

/// Reads the field `attribute` of a node message.
#[verifier::external_body]
fn attributes_of(node: &onnx_protobuf::NodeProto) -> (attributes: &Vec<onnx_protobuf::AttributeProto>)
    ensures
        attributes@.map_values(|a: onnx_protobuf::AttributeProto| attribute_contents(a))
            == node_contents(*node).attribute,
{
    &node.attribute
}

/// Takes over the name and the shape of a message about an input or an output, by
/// `tensor_type`, `has_dim_value` and `dim_value` of `onnx_protobuf`: there is a
/// shape where its type is that of a tensor with a shape, and a size is absent
/// where the message does not give it as a number.
#[verifier::external_body]
fn take_value(value: &onnx_protobuf::ValueInfoProto) -> (taken: ValueDef)
    ensures
        taken@ == value_contents(*value),
{
    let dims = value.type_.tensor_type().shape.as_ref();
    let shape = dims.map(|s| {
        s.dim.iter().map(|d| d.has_dim_value().then_some(d.dim_value())).collect()
    });
    ValueDef { name: value.name.clone(), shape }
}

fn read_attribute(attribute: &onnx_protobuf::AttributeProto) -> (read: AttributeDef)
    ensures
        read@ == attribute_contents(*attribute),
{
    let (name, f, i, ints) = take_settings(attribute);
    let t = match tensor_of(attribute) {
        Some(tensor) => Some(take_tensor(tensor)),
        None => None,
    };
    AttributeDef { name, f, i, ints, t }
}

fn read_node(node: &onnx_protobuf::NodeProto) -> (read: NodeDef)
    ensures
        read@ == node_contents(*node),
{
    let (op_type, input, output) = take_names(node);
    let attributes = attributes_of(node);
    let ghost contents = node_contents(*node).attribute;
    let mut attribute: Vec<AttributeDef> = Vec::new();
    let mut i: usize = 0;
    while i < attributes.len()
        invariant
            contents == attributes@.map_values(
                |a: onnx_protobuf::AttributeProto| attribute_contents(a),
            ),
            i <= attributes@.len(),
            attribute@.len() == i,
            forall|k: int| 0 <= k < i ==> (#[trigger] attribute@[k])@ == contents[k],
        decreases attributes.len() - i,
    {
        attribute.push(read_attribute(&attributes[i]));
        i = i + 1;
    }
    assert(attribute@.map_values(|a: AttributeDef| a@) =~= contents);
    NodeDef { op_type, input, output, attribute }
}

fn read_tensors(tensors: &Vec<onnx_protobuf::TensorProto>) -> (read: Vec<TensorDef>)
    ensures
        read@.map_values(|t: TensorDef| t@) == tensors@.map_values(
            |t: onnx_protobuf::TensorProto| tensor_contents(t),
        ),
{
    let mut read: Vec<TensorDef> = Vec::new();
    let mut i: usize = 0;
    while i < tensors.len()
        invariant
            i <= tensors@.len(),
            read@.len() == i,
            forall|k: int| 0 <= k < i ==> (#[trigger] read@[k])@ == tensor_contents(tensors@[k]),
        decreases tensors.len() - i,
    {
        read.push(take_tensor(&tensors[i]));
        i = i + 1;
    }
    assert(read@.map_values(|t: TensorDef| t@) =~= tensors@.map_values(
        |t: onnx_protobuf::TensorProto| tensor_contents(t),
    ));
    read
}

fn read_values(values: &Vec<onnx_protobuf::ValueInfoProto>) -> (read: Vec<ValueDef>)
    ensures
        read@.map_values(|v: ValueDef| v@) == values@.map_values(
            |v: onnx_protobuf::ValueInfoProto| value_contents(v),
        ),
{
    let mut read: Vec<ValueDef> = Vec::new();
    let mut i: usize = 0;
    while i < values.len()
        invariant
            i <= values@.len(),
            read@.len() == i,
            forall|k: int| 0 <= k < i ==> (#[trigger] read@[k])@ == value_contents(values@[k]),
        decreases values.len() - i,
    {
        read.push(take_value(&values[i]));
        i = i + 1;
    }
    assert(read@.map_values(|v: ValueDef| v@) =~= values@.map_values(
        |v: onnx_protobuf::ValueInfoProto| value_contents(v),
    ));
    read
}

fn read_nodes(nodes: &Vec<onnx_protobuf::NodeProto>) -> (read: Vec<NodeDef>)
    ensures
        read@.map_values(|n: NodeDef| n@) == nodes@.map_values(
            |n: onnx_protobuf::NodeProto| node_contents(n),
        ),
{
    let mut read: Vec<NodeDef> = Vec::new();
    let mut i: usize = 0;
    while i < nodes.len()
        invariant
            i <= nodes@.len(),
            read@.len() == i,
            forall|k: int| 0 <= k < i ==> (#[trigger] read@[k])@ == node_contents(nodes@[k]),
        decreases nodes.len() - i,
    {
        read.push(read_node(&nodes[i]));
        i = i + 1;
    }
    assert(read@.map_values(|n: NodeDef| n@) =~= nodes@.map_values(
        |n: onnx_protobuf::NodeProto| node_contents(n),
    ));
    read
}

/// What is said of bytes with groups that are nested too deeply.
pub open spec fn too_deep() -> Seq<char> {
    "groups are nested too deeply"@
}

/// Reads a model from the bytes that encode it. It fails if they encode none, or
/// hold groups that are nested too deeply.
pub fn read_model(bytes: &Vec<u8>) -> (model: Result<ModelDef, String>)
    ensures
        match model {
            Ok(m) => is_shallow(bytes@) && decoded(bytes@) == Some(m@),
            Err(message) => {
                &&& is_shallow(bytes@) ==> decoded(bytes@) is None
                &&& message@ == "Failed to parse Onnx Model: "@ + if is_shallow(bytes@) {
                    decode_failure(bytes@)
                } else {
                    too_deep()
                }
            },
        },
{
    let parsed = if check_groups(bytes) {
        parse_from_bytes(bytes.as_slice())
    } else {
        Err(String::from_str("groups are nested too deeply"))
    };
    match parsed {
        Ok(model) => {
            let graph = GraphDef {
                node: read_nodes(nodes_of(&model)),
                initializer: read_tensors(initializers_of(&model)),
                input: read_values(inputs_of(&model)),
                output: read_values(outputs_of(&model)),
            };
            Ok(ModelDef { graph })
        },
        Err(text) => {
            let message = join("Failed to parse Onnx Model: ", text.as_str(), "");
            proof {
                reveal_strlit("");
                assert(message@ =~= "Failed to parse Onnx Model: "@ + text@);
            }
            Err(message)
        },
    }
}

} // verus!
