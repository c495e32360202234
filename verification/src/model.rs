//! The import of a whole model.

use crate::bits::FloatMath;
use crate::fold::transpose_weight_data;
#[allow(unused_imports)]
use crate::fold::transposed;
use crate::graph::{group_graph, ComputeGraph, GraphTensor};
#[allow(unused_imports)]
use crate::graph::{asked, load, Handle, Tensor};
use crate::names::{join, NameMap};
#[allow(unused_imports)]
use crate::names::texts;
use crate::nodes::try_process_onnx_nodes;
#[allow(unused_imports)]
use crate::nodes::{known_are_named, law_import_keeps_names, nodes_step};
use crate::ops::constant::find_data;
#[allow(unused_imports)]
use crate::ops::constant::first_data;
#[allow(unused_imports)]
use crate::ops::matrix::kn_name;
use crate::proto::{
    copy_bits, get_shape_for_onnx_value, load_initializer_as_f32, sizes, text_is, GraphDef,
    ModelDef,
};
#[allow(unused_imports)]
use crate::proto::{inline_values, shape_of, tensor_sizes};
use crate::runtime::{
    find_exchanged, flipped_name, load_floats, set_initializers, set_weights, set_zeros, Runtime,
};
#[allow(unused_imports)]
use crate::runtime::{
    can_count, can_flip, exchanged_data, flipped, has_flipped, initializer_floats, node_list,
    with_initializers, with_weights, with_zeros,
};
use crate::shape::{checked_product, dims_of, Dim};
#[allow(unused_imports)]
use crate::shape::{bounded_product, known_dims};
use crate::state::{bind, group_state, remember, supply, Fault};
#[allow(unused_imports)]
use crate::state::{
    data, env, handles, is_coherent, lemma_coherent, outcome, state, valid, values, Outcome, State,
};
use vstd::pervasive::unreached;
use vstd::prelude::*;

verus! {

broadcast use {group_graph, group_state};

/// Whether a name is that of an initializer.
pub open spec fn is_initializer(graph: GraphDef, name: Seq<char>) -> bool {
    exists|i: int| 0 <= i < graph.initializer@.len() && #[trigger] graph.initializer@[i].name@ == name
}

/// The names of the first `n` inputs without those of initializers, which are
/// parameters of the model.
pub open spec fn model_inputs(graph: GraphDef, n: nat) -> Seq<Seq<char>>
    decreases n,
{
    if n == 0 {
        Seq::empty()
    } else {
        let before = model_inputs(graph, (n - 1) as nat);
        let name = graph.input@[n - 1].name@;
        if is_initializer(graph, name) {
            before
        } else {
            before.push(name)
        }
    }
}

fn names_initializer(graph: &GraphDef, name: &String) -> (r: bool)
    ensures
        r == is_initializer(*graph, name@),
{
    let mut i: usize = 0;
    while i < graph.initializer.len()
        invariant
            i <= graph.initializer@.len(),
            forall|k: int| 0 <= k < i ==> #[trigger] graph.initializer@[k].name@ != name@,
        decreases graph.initializer.len() - i,
    {
        if graph.initializer[i].name == *name {
            return true;
        }
        i = i + 1;
    }
    false
}

/// The names of the inputs without those of initializers.
pub fn find_input_names(graph: &GraphDef) -> (names: Vec<String>)
    ensures
        texts(names@) == model_inputs(*graph, graph.input@.len()),
{
    let mut names: Vec<String> = Vec::new();
    let mut i: usize = 0;
    assert(texts(names@) =~= model_inputs(*graph, 0));
    while i < graph.input.len()
        invariant
            i <= graph.input@.len(),
            texts(names@) == model_inputs(*graph, i as nat),
        decreases graph.input.len() - i,
    {
        if !names_initializer(graph, &graph.input[i].name) {
            let ghost before = names@;
            names.push(graph.input[i].name.clone());
            assert(texts(names@) =~= texts(before).push(graph.input@[i as int].name@));
        }
        i = i + 1;
    }
    names
}

/// The named tensors of the first `n` inputs: one for each whose sizes are
/// known.
pub open spec fn input_tensors(graph: GraphDef, n: nat) -> Map<Seq<char>, Tensor>
    decreases n,
{
    if n == 0 {
        Map::empty()
    } else {
        let before = input_tensors(graph, (n - 1) as nat);
        let input = graph.input@[n - 1];
        if shape_of(input).len() == 0 {
            before
        } else {
            before.insert(input.name@, load(input.name@, known_dims(shape_of(input))))
        }
    }
}

/// The named tensors of the inputs and of the first `n` initializers.
pub open spec fn placed_tensors(graph: GraphDef, n: nat) -> Map<Seq<char>, Tensor>
    decreases n,
{
    if n == 0 {
        input_tensors(graph, graph.input@.len())
    } else {
        let before = placed_tensors(graph, (n - 1) as nat);
        let t = graph.initializer@[n - 1];
        if before.contains_key(t.name@) {
            before
        } else {
            before.insert(t.name@, load(t.name@, known_dims(tensor_sizes(t))))
        }
    }
}

/// A graph with a named tensor for each input whose sizes are known, and for
/// each initializer.
pub fn place_tensors(graph: &GraphDef) -> (placed: (NameMap<GraphTensor>, ComputeGraph))
    ensures
        valid(placed.0, placed.1),
        env(placed.0, placed.1) == placed_tensors(*graph, graph.initializer@.len()),
        placed.1.outputs@.len() == 0,
{
    let mut tensors: NameMap<GraphTensor> = NameMap::new();
    let mut cx = ComputeGraph::new();
    let mut i: usize = 0;
    assert(env(tensors, cx) =~= input_tensors(*graph, 0));
    while i < graph.input.len()
        invariant
            i <= graph.input@.len(),
            valid(tensors, cx),
            cx.outputs@.len() == 0,
            env(tensors, cx) == input_tensors(*graph, i as nat),
        decreases graph.input.len() - i,
    {
        let shape = get_shape_for_onnx_value(&graph.input[i]);
        if shape.len() > 0 {
            let name = graph.input[i].name.as_str();
            let tensor = cx.named_tensor(name, dims_of(&shape));
            bind(&mut tensors, &cx, name, tensor);
        }
        i = i + 1;
    }
    let mut j: usize = 0;
    while j < graph.initializer.len()
        invariant
            j <= graph.initializer@.len(),
            valid(tensors, cx),
            cx.outputs@.len() == 0,
            env(tensors, cx) == placed_tensors(*graph, j as nat),
        decreases graph.initializer.len() - j,
    {
        let name = graph.initializer[j].name.as_str();
        if !tensors.contains_key(name) {
            let shape = sizes(&graph.initializer[j]);
            let tensor = cx.named_tensor(name, dims_of(&shape));
            bind(&mut tensors, &cx, name, tensor);
        }
        j = j + 1;
    }
    (tensors, cx)
}

/// The greatest number of elements of an initializer whose elements are used
/// while the graph is built.
pub const SMALL: usize = 32;

/// Whether the elements of initializer `i` are used while the graph is built.
pub open spec fn is_small(graph: GraphDef, i: int) -> bool {
    let count = bounded_product(tensor_sizes(graph.initializer@[i]));
    count is Some && count->0 <= SMALL
}

/// The known values that the first `n` initializers give.
pub open spec fn small_values(graph: GraphDef, n: nat) -> Map<Seq<char>, Seq<u32>>
    decreases n,
{
    if n == 0 {
        Map::empty()
    } else {
        let before = small_values(graph, (n - 1) as nat);
        let t = graph.initializer@[n - 1];
        match inline_values(t) {
            Some(v) => if is_small(graph, n - 1) {
                before.insert(t.name@, v)
            } else {
                before
            },
            None => before,
        }
    }
}

/// Whether the numbers of elements of all initializers are representable.
pub open spec fn counts_bounded(graph: GraphDef) -> bool {
    forall|i: int|
        0 <= i < graph.initializer@.len() ==> bounded_product(
            tensor_sizes(#[trigger] graph.initializer@[i]),
        ) is Some
}

/// The known values that the initializers give, if their numbers of elements are
/// representable.
pub fn read_small_values(graph: &GraphDef) -> (known: Option<NameMap<Vec<u32>>>)
    ensures
        match known {
            Some(k) => counts_bounded(*graph) && values(k) == small_values(
                *graph,
                graph.initializer@.len(),
            ),
            None => !counts_bounded(*graph),
        },
{
    let mut known: NameMap<Vec<u32>> = NameMap::new();
    let mut i: usize = 0;
    assert(values(known) =~= small_values(*graph, 0));
    while i < graph.initializer.len()
        invariant
            i <= graph.initializer@.len(),
            values(known) == small_values(*graph, i as nat),
            forall|k: int|
                0 <= k < i ==> bounded_product(
                    tensor_sizes(#[trigger] graph.initializer@[k]),
                ) is Some,
        decreases graph.initializer.len() - i,
    {
        let t = &graph.initializer[i];
        match checked_product(&sizes(t)) {
            Some(count) => {
                if count <= SMALL {
                    if let Some(v) = load_initializer_as_f32(t) {
                        remember(&mut known, t.name.as_str(), v);
                    }
                }
            },
            None => {
                assert(!(bounded_product(tensor_sizes(graph.initializer@[i as int])) is Some));
                return None;
            },
        }
        i = i + 1;
    }
    Some(known)
}

/// The outputs among the first `n` that there is a tensor for, with their sizes.
pub open spec fn found_outputs(graph: GraphDef, tensors: Map<Seq<char>, Handle>, n: nat) -> Seq<
    (Seq<char>, Seq<usize>),
>
    decreases n,
{
    if n == 0 {
        Seq::empty()
    } else {
        let before = found_outputs(graph, tensors, (n - 1) as nat);
        let output = graph.output@[n - 1];
        if tensors.contains_key(output.name@) {
            before.push((output.name@, shape_of(output)))
        } else {
            before
        }
    }
}

/// How marking the first `n` outputs ends: it fails at the first one that there
/// is a tensor for, but no sizes.
pub open spec fn outputs_outcome(graph: GraphDef, tensors: Map<Seq<char>, Handle>, n: nat) -> Outcome
    decreases n,
{
    if n == 0 {
        Outcome::Done
    } else {
        let before = outputs_outcome(graph, tensors, (n - 1) as nat);
        let output = graph.output@[n - 1];
        if !(before is Done) {
            before
        } else if tensors.contains_key(output.name@) && shape_of(output).len() == 0 {
            Outcome::Fails(
                "Output tensor '"@ + output.name@
                    + "' has no shape information in the ONNX model"@,
            )
        } else {
            Outcome::Done
        }
    }
}

proof fn lemma_outputs_outcome(graph: GraphDef, tensors: Map<Seq<char>, Handle>, n: nat, m: nat)
    requires
        n <= m,
        !(outputs_outcome(graph, tensors, n) is Done),
    ensures
        outputs_outcome(graph, tensors, m) == outputs_outcome(graph, tensors, n),
    decreases m,
{
    if n < m {
        lemma_outputs_outcome(graph, tensors, n, (m - 1) as nat);
    }
}

/// The names and sizes of outputs.
pub open spec fn output_list(names: Seq<String>, shapes: Seq<Vec<usize>>) -> Seq<
    (Seq<char>, Seq<usize>),
> {
    Seq::new(names.len(), |i: int| (names[i]@, shapes[i]@))
}

/// Asks for the results of the outputs that there is a tensor for.
pub fn mark_outputs(graph: &GraphDef, tensors: &NameMap<GraphTensor>, cx: &mut ComputeGraph) -> (found: Result<
    (Vec<String>, Vec<Vec<usize>>),
    String,
>)
    requires
        valid(*tensors, *old(cx)),
    ensures
        final(cx).nodes@ == old(cx).nodes@,
        match found {
            Ok((names, shapes)) => {
                &&& outputs_outcome(*graph, handles(*tensors), graph.output@.len()) is Done
                &&& names@.len() == shapes@.len()
                &&& output_list(names@, shapes@) == found_outputs(
                    *graph,
                    handles(*tensors),
                    graph.output@.len(),
                )
                &&& asked(final(cx).outputs@) == asked(old(cx).outputs@) + Seq::new(
                    names@.len(),
                    |i: int| handles(*tensors)[names@[i]@],
                )
            },
            Err(message) => outputs_outcome(*graph, handles(*tensors), graph.output@.len())
                == Outcome::Fails(message@),
        },
{
    let mut names: Vec<String> = Vec::new();
    let mut shapes: Vec<Vec<usize>> = Vec::new();
    let mut i: usize = 0;
    assert(output_list(names@, shapes@) =~= found_outputs(*graph, handles(*tensors), 0));
    assert(asked(cx.outputs@) =~= asked(old(cx).outputs@) + Seq::new(
        names@.len(),
        |i: int| handles(*tensors)[names@[i]@],
    ));
    while i < graph.output.len()
        invariant
            valid(*tensors, *old(cx)),
            i <= graph.output@.len(),
            cx.nodes@ == old(cx).nodes@,
            outputs_outcome(*graph, handles(*tensors), i as nat) is Done,
            names@.len() == shapes@.len(),
            output_list(names@, shapes@) == found_outputs(*graph, handles(*tensors), i as nat),
            asked(cx.outputs@) == asked(old(cx).outputs@) + Seq::new(
                names@.len(),
                |i: int| handles(*tensors)[names@[i]@],
            ),
        decreases graph.output.len() - i,
    {
        let output = &graph.output[i];
        if let Some(tensor) = tensors.get(output.name.as_str()) {
            let shape = get_shape_for_onnx_value(output);
            if shape.len() == 0 {
                proof {
                    lemma_outputs_outcome(
                        *graph,
                        handles(*tensors),
                        (i + 1) as nat,
                        graph.output@.len(),
                    );
                }
                return Err(
                    join(
                        "Output tensor '",
                        output.name.as_str(),
                        "' has no shape information in the ONNX model",
                    ),
                );
            }
            let ghost names_before = names@;
            let ghost shapes_before = shapes@;
            cx.output(tensor);
            names.push(output.name.clone());
            shapes.push(shape);
            assert(output_list(names@, shapes@) =~= output_list(names_before, shapes_before).push(
                (output.name@, shape_of(*output)),
            ));
            assert(asked(cx.outputs@) =~= asked(old(cx).outputs@) + Seq::new(
                names@.len(),
                |i: int| handles(*tensors)[names@[i]@],
            ));
        }
        i = i + 1;
    }
    Ok((names, shapes))
}

/// The data of the named tensors after the first `n` initializers have given
/// theirs, with rows and columns exchanged too where there is a tensor for that.
pub open spec fn initializer_data(
    graph: GraphDef,
    stored: Seq<Option<Vec<u8>>>,
    tensors: Map<Seq<char>, Handle>,
    weights: Seq<(Seq<char>, Seq<u32>)>,
    n: nat,
) -> Seq<(Seq<char>, Seq<u32>)>
    decreases n,
{
    if n == 0 {
        weights
    } else {
        let before = initializer_data(graph, stored, tensors, weights, (n - 1) as nat);
        let name = graph.initializer@[n - 1].name@;
        match initializer_floats(graph, stored, n - 1) {
            None => before,
            Some(v) => if has_flipped(graph, tensors, n - 1) {
                before.push((name, v)).push((kn_name(name), flipped(graph, stored, n - 1)))
            } else {
                before.push((name, v))
            },
        }
    }
}

/// Whether all initializers that there is a tensor for with rows and columns
/// exchanged have as many elements as their sizes say.
pub open spec fn all_flip(
    graph: GraphDef,
    stored: Seq<Option<Vec<u8>>>,
    tensors: Map<Seq<char>, Handle>,
) -> bool {
    forall|i: int|
        0 <= i < graph.initializer@.len() ==> #[trigger] can_flip(graph, stored, tensors, i)
}

/// Adds the data of the initializers, if those whose rows and columns are to be
/// exchanged have as many elements as their sizes say.
pub fn add_initializer_data(
    graph: &GraphDef,
    stored: &Vec<Option<Vec<u8>>>,
    tensors: &NameMap<GraphTensor>,
    weight_data: &mut Vec<(String, Vec<u32>)>,
) -> (done: bool)
    ensures
        done == all_flip(*graph, stored@, handles(*tensors)),
        done ==> data(*final(weight_data)) == initializer_data(
            *graph,
            stored@,
            handles(*tensors),
            data(*old(weight_data)),
            graph.initializer@.len(),
        ),
{
    let mut i: usize = 0;
    while i < graph.initializer.len()
        invariant
            i <= graph.initializer@.len(),
            forall|k: int|
                0 <= k < i ==> #[trigger] can_flip(*graph, stored@, handles(*tensors), k),
            data(*weight_data) == initializer_data(
                *graph,
                stored@,
                handles(*tensors),
                data(*old(weight_data)),
                i as nat,
            ),
        decreases graph.initializer.len() - i,
    {
        let t = &graph.initializer[i];
        let ghost possible = can_flip(*graph, stored@, handles(*tensors), i as int);
        if let Some(values) = load_floats(graph, stored, i) {
            supply(weight_data, t.name.as_str(), copy_bits(&values));
            let name = flipped_name(&t.name);
            if tensors.contains_key(name.as_str()) {
                let shape = sizes(t);
                if shape.len() == 2 {
                    match shape[0].checked_mul(shape[1]) {
                        Some(size) => {
                            if size > values.len() {
                                assert(!possible);
                                return false;
                            }
                        },
                        None => {
                            assert(values.len() <= usize::MAX);
                            assert(!possible);
                            return false;
                        },
                    }
                    supply(
                        weight_data,
                        name.as_str(),
                        transpose_weight_data(&values, shape[0], shape[1]),
                    );
                }
            }
        }
        assert(possible);
        i = i + 1;
    }
    true
}

/// The first data, from position `from` on, of a tensor that is another name of
/// node `id`.
pub open spec fn node_data(
    weights: Seq<(Seq<char>, Seq<u32>)>,
    tensors: Map<Seq<char>, Handle>,
    id: nat,
    from: int,
) -> Option<Seq<u32>>
    decreases weights.len() - from,
{
    if from < 0 || from >= weights.len() {
        None
    } else if tensors.contains_key(weights[from].0) && tensors[weights[from].0].id == id {
        Some(weights[from].1)
    } else {
        node_data(weights, tensors, id, from + 1)
    }
}

/// The data of a tensor that is another name of node `id`.
fn find_node_data<'a>(
    weights: &'a Vec<(String, Vec<u32>)>,
    tensors: &NameMap<GraphTensor>,
    id: usize,
) -> (found: Option<&'a Vec<u32>>)
    ensures
        match found {
            Some(v) => node_data(data(*weights), handles(*tensors), id as nat, 0) == Some(v@),
            None => node_data(data(*weights), handles(*tensors), id as nat, 0) is None,
        },
{
    let mut i: usize = 0;
    while i < weights.len()
        invariant
            i <= weights@.len(),
            node_data(data(*weights), handles(*tensors), id as nat, 0) == node_data(
                data(*weights),
                handles(*tensors),
                id as nat,
                i as int,
            ),
        decreases weights.len() - i,
    {
        assert(data(*weights)[i as int] == (weights@[i as int].0@, weights@[i as int].1@));
        if let Some(tensor) = tensors.get(weights[i].0.as_str()) {
            if tensor.id == id {
                return Some(&weights[i].1);
            }
        }
        i = i + 1;
    }
    None
}

/// The data that the tensor with the rows and columns of `base` exchanged gets
/// from a tensor that is another name of `base`, if it has none.
pub open spec fn alias_source(
    weights: Seq<(Seq<char>, Seq<u32>)>,
    tensors: Map<Seq<char>, Handle>,
    base: Seq<char>,
) -> Option<Seq<u32>> {
    let name = kn_name(base);
    if tensors.contains_key(name) && first_data(weights, name, 0) is None
        && tensors[name].shape.dims.len() == 2 {
        node_data(weights, tensors, tensors[base].id, 0)
    } else {
        None
    }
}

/// Whether the tensor with the rows and columns of `base` exchanged, if it gets
/// data, has known sizes, and the data as many elements as these say.
pub open spec fn can_alias(
    weights: Seq<(Seq<char>, Seq<u32>)>,
    tensors: Map<Seq<char>, Handle>,
    base: Seq<char>,
) -> bool {
    let dims = tensors[kn_name(base)].shape.dims;
    alias_source(weights, tensors, base) matches Some(v) ==> {
        &&& dims[0] is Known
        &&& dims[1] is Known
        &&& dims[1]->Known_0 * dims[0]->Known_0 <= v.len()
    }
}

/// The data of the named tensors after those with the rows and columns of one
/// of the first `n` of `names` exchanged have got theirs.
pub open spec fn alias_data(
    tensors: Map<Seq<char>, Handle>,
    names: Seq<Seq<char>>,
    weights: Seq<(Seq<char>, Seq<u32>)>,
    n: nat,
) -> Seq<(Seq<char>, Seq<u32>)>
    decreases n,
{
    if n == 0 {
        weights
    } else {
        let before = alias_data(tensors, names, weights, (n - 1) as nat);
        let base = names[n - 1];
        let dims = tensors[kn_name(base)].shape.dims;
        match alias_source(before, tensors, base) {
            Some(v) => before.push(
                (
                    kn_name(base),
                    transposed(v, dims[1]->Known_0 as int, dims[0]->Known_0 as int),
                ),
            ),
            None => before,
        }
    }
}

/// Whether the tensors with the rows and columns of one of `names` exchanged can
/// get their data.
pub open spec fn all_alias(
    tensors: Map<Seq<char>, Handle>,
    names: Seq<Seq<char>>,
    weights: Seq<(Seq<char>, Seq<u32>)>,
) -> bool {
    forall|i: int|
        0 <= i < names.len() ==> can_alias(
            alias_data(tensors, names, weights, i as nat),
            tensors,
            #[trigger] names[i],
        )
}

/// The data that the tensor with the rows and columns of `base` exchanged gets,
/// if it gets any; nothing at all if it should and cannot.
fn find_alias(
    tensors: &NameMap<GraphTensor>,
    weights: &Vec<(String, Vec<u32>)>,
    base: &String,
    name: &String,
) -> (found: Option<Option<Vec<u32>>>)
    requires
        tensors@.contains_key(base@),
        name@ == kn_name(base@),
    ensures
        ({
            let map = handles(*tensors);
            let source = alias_source(data(*weights), map, base@);
            let dims = map[name@].shape.dims;
            match found {
                Some(Some(v)) => {
                    &&& can_alias(data(*weights), map, base@)
                    &&& source is Some
                    &&& v@ == transposed(
                        source->0,
                        dims[1]->Known_0 as int,
                        dims[0]->Known_0 as int,
                    )
                },
                Some(None) => source is None,
                None => !can_alias(data(*weights), map, base@),
            }
        }),
{
    let target = match tensors.get(name.as_str()) {
        Some(target) => target,
        None => {
            return Some(None);
        },
    };
    if target.dims().len() != 2 || find_data(weights, name).is_some() {
        return Some(None);
    }
    let own = match tensors.get(base.as_str()) {
        Some(own) => own,
        None => {
            return Some(None);
        },
    };
    let source = match find_node_data(weights, tensors, own.id) {
        Some(source) => source,
        None => {
            return Some(None);
        },
    };
    match (target.dims()[0], target.dims()[1]) {
        (Dim::Known(k), Dim::Known(n)) => {
            match n.checked_mul(k) {
                Some(size) => {
                    if size > source.len() {
                        return None;
                    }
                },
                None => {
                    assert(source.len() <= usize::MAX);
                    return None;
                },
            }
            Some(Some(transpose_weight_data(source, n, k)))
        },
        _ => None,
    }
}

/// Gives data to the tensors with rows and columns exchanged that have none,
/// from another name of the tensor that they stand for, if its elements are as
/// many as they need.
pub fn add_alias_data(tensors: &NameMap<GraphTensor>, weight_data: &mut Vec<(String, Vec<u32>)>) -> (done:
    bool)
    requires
        tensors.wf(),
    ensures
        done == all_alias(handles(*tensors), tensors.names(), data(*old(weight_data))),
        done ==> data(*final(weight_data)) == alias_data(
            handles(*tensors),
            tensors.names(),
            data(*old(weight_data)),
            tensors.names().len(),
        ),
{
    let ghost map = handles(*tensors);
    let ghost names = tensors.names();
    let mut i: usize = 0;
    while i < tensors.len()
        invariant
            map == handles(*tensors),
            names == tensors.names(),
            tensors.wf(),
            i <= names.len(),
            data(*weight_data) == alias_data(map, names, data(*old(weight_data)), i as nat),
            forall|k: int|
                0 <= k < i ==> can_alias(
                    alias_data(map, names, data(*old(weight_data)), k as nat),
                    map,
                    #[trigger] names[k],
                ),
        decreases names.len() - i,
    {
        let base = tensors.name(i);
        proof {
            assert(names.to_set().contains(names[i as int]));
            assert(tensors@.contains_key(base@));
        }
        let name = flipped_name(base);
        match find_alias(tensors, weight_data, base, &name) {
            Some(Some(v)) => {
                supply(weight_data, name.as_str(), v);
            },
            Some(None) => {},
            None => {
                return false;
            },
        }
        i = i + 1;
    }
    true
}

/// Why a model is not imported.
#[derive(Debug)]
pub enum ModelFault {
    /// A node of the model lacks something that it needs, or is of an unknown
    /// type.
    Node(String),
    /// An output of the model lacks its sizes.
    Output(String),
    /// The model is not one that can be imported.
    Rejected,
}

/// A model that was imported.
pub struct OnnxGraphResult {
    pub context: ComputeGraph,
    pub runtime: Runtime,
    pub tensor_ids: NameMap<usize>,
    /// The data of matrices with rows and columns exchanged that a graph that
    /// runs on the processor is not given, for one that keeps their nodes.
    pub withheld: Vec<(usize, Vec<u32>)>,
    pub input_names: Vec<String>,
    pub output_names: Vec<String>,
    pub output_shapes: Vec<Vec<usize>>,
}

/// The node of a named tensor.
pub open spec fn ids(tensors: Map<Seq<char>, Handle>) -> Map<Seq<char>, usize> {
    tensors.map_values(|tensor: Handle| tensor.id as usize)
}

/// The data of the named tensors: what was given while the nodes were imported,
/// that of the initializers, and what tensors with rows and columns exchanged
/// get from others.
pub open spec fn all_data(
    graph: GraphDef,
    stored: Seq<Option<Vec<u8>>>,
    names: Seq<Seq<char>>,
    end: State,
) -> Seq<(Seq<char>, Seq<u32>)> {
    alias_data(
        end.tensors,
        names,
        initializer_data(graph, stored, end.tensors, end.weights, graph.initializer@.len()),
        names.len(),
    )
}

/// Whether all data exists that the tensors with rows and columns exchanged
/// get.
pub open spec fn data_exists(
    graph: GraphDef,
    stored: Seq<Option<Vec<u8>>>,
    names: Seq<Seq<char>>,
    end: State,
) -> bool {
    &&& all_flip(graph, stored, end.tensors)
    &&& all_alias(
        end.tensors,
        names,
        initializer_data(graph, stored, end.tensors, end.weights, graph.initializer@.len()),
    )
}

/// The names of the tensors that get zeros first: all, for a graph that runs
/// on a graphics processor; otherwise the inputs of the model.
pub open spec fn zeroed_names(graph: GraphDef, names: Seq<Seq<char>>, cuda: bool) -> Seq<
    Seq<char>,
> {
    if cuda {
        names
    } else {
        model_inputs(graph, graph.input@.len())
    }
}

/// The data that the nodes are given, one after the other: zeros, the elements
/// of the initializers, and the data of all named tensors. Matrices with rows
/// and columns exchanged only get data in a graph that runs on a graphics
/// processor.
pub open spec fn fed(
    graph: GraphDef,
    stored: Seq<Option<Vec<u8>>>,
    names: Seq<Seq<char>>,
    tensors: Map<Seq<char>, Handle>,
    weights: Seq<(Seq<char>, Seq<u32>)>,
    cuda: bool,
) -> Map<usize, Seq<u32>> {
    let zeroed = zeroed_names(graph, names, cuda);
    let zeros = with_zeros(graph, weights, tensors, zeroed, Map::empty(), zeroed.len());
    let initialized = with_initializers(
        graph,
        stored,
        tensors,
        cuda,
        zeros,
        graph.initializer@.len(),
    );
    with_weights(weights, tensors, !cuda, initialized, weights.len())
}

/// The data that the nodes of an imported model are given.
pub open spec fn given_data(
    graph: GraphDef,
    stored: Seq<Option<Vec<u8>>>,
    names: Seq<Seq<char>>,
    end: State,
    cuda: bool,
) -> Map<usize, Seq<u32>> {
    fed(graph, stored, names, end.tensors, all_data(graph, stored, names, end), cuda)
}

/// The data that the nodes of an imported model are not given: that of matrices
/// with rows and columns exchanged, in a graph that runs on the processor.
pub open spec fn withheld_data(
    graph: GraphDef,
    stored: Seq<Option<Vec<u8>>>,
    names: Seq<Seq<char>>,
    end: State,
    cuda: bool,
) -> Seq<(usize, Seq<u32>)> {
    let weights = all_data(graph, stored, names, end);
    exchanged_data(
        weights,
        end.tensors,
        if cuda {
            0
        } else {
            weights.len()
        },
    )
}

/// What is known of a model whose nodes were imported with `end` known, and
/// whose tensors are called `names`.
pub open spec fn completed(
    graph: GraphDef,
    stored: Seq<Option<Vec<u8>>>,
    cuda: bool,
    names: Seq<Seq<char>>,
    end: State,
    result: Result<OnnxGraphResult, ModelFault>,
) -> bool {
    let outputs = outputs_outcome(graph, end.tensors, graph.output@.len());
    let found = found_outputs(graph, end.tensors, graph.output@.len());
    if outputs is Fails {
        result matches Err(ModelFault::Output(message)) && outputs == Outcome::Fails(message@)
    } else if !data_exists(graph, stored, names, end) || !can_count(
        graph,
        all_data(graph, stored, names, end),
        end.tensors,
        zeroed_names(graph, names, cuda),
    ) {
        result matches Err(ModelFault::Rejected)
    } else {
        match result {
            Err(_) => false,
            Ok(r) => {
                &&& r.context.wf()
                &&& forall|name: Seq<char>| #[trigger]
                    end.tensors.contains_key(name) ==> {
                        &&& r.context.holds(end.tensors[name])
                        &&& r.context.meaning(end.tensors[name]) == end.env[name]
                    }
                &&& asked(r.context.outputs@) == Seq::new(
                    found.len(),
                    |i: int| end.tensors[found[i].0],
                )
                &&& r.tensor_ids@.dom() == end.env.dom()
                &&& r.tensor_ids@ == ids(end.tensors)
                &&& r.tensor_ids.wf()
                &&& texts(r.input_names@) == model_inputs(graph, graph.input@.len())
                &&& r.output_names@.len() == r.output_shapes@.len()
                &&& output_list(r.output_names@, r.output_shapes@) == found
                &&& r.runtime.cuda == cuda
                &&& r.runtime@ == given_data(graph, stored, names, end, cuda)
                &&& node_list(r.withheld@) == withheld_data(graph, stored, names, end, cuda)
            },
        }
    }
}

/// What is known before the nodes of a model are imported.
pub open spec fn is_beginning(graph: GraphDef, begin: State) -> bool {
    &&& is_coherent(begin)
    &&& begin.env == placed_tensors(graph, graph.initializer@.len())
    &&& begin.weights == Seq::<(Seq<char>, Seq<u32>)>::empty()
    &&& begin.known == small_values(graph, graph.initializer@.len())
}

/// What the import of the nodes of a model, and of what follows, does.
pub open spec fn imported<M: FloatMath>(
    math: M,
    graph: GraphDef,
    stored: Seq<Option<Vec<u8>>>,
    cuda: bool,
    begin: State,
    end: State,
    names: Seq<Seq<char>>,
    nodes: Outcome,
    result: Result<OnnxGraphResult, ModelFault>,
) -> bool {
    &&& is_beginning(graph, begin)
    &&& nodes_step(math, graph.node@, begin, end, nodes)
    &&& is_coherent(end)
    &&& names.no_duplicates()
    &&& names.to_set() == end.tensors.dom()
    &&& match nodes {
        Outcome::Fails(text) => result matches Err(ModelFault::Node(message)) && message@ == text,
        Outcome::Rejects => result matches Err(ModelFault::Rejected),
        Outcome::Done => completed(graph, stored, cuda, names, end, result),
    }
}

/// What the import of a model does.
pub open spec fn model_step<M: FloatMath>(
    math: M,
    graph: GraphDef,
    stored: Seq<Option<Vec<u8>>>,
    cuda: bool,
    result: Result<OnnxGraphResult, ModelFault>,
) -> bool {
    if counts_bounded(graph) {
        exists|begin: State, end: State, names: Seq<Seq<char>>, nodes: Outcome| #[trigger]
            imported(math, graph, stored, cuda, begin, end, names, nodes, result)
    } else {
        result matches Err(ModelFault::Rejected)
    }
}

/// The result of an import that can only fail with a message about an output.
pub open spec fn with_message(result: Result<OnnxGraphResult, String>) -> Result<
    OnnxGraphResult,
    ModelFault,
> {
    match result {
        Ok(r) => Ok(r),
        Err(message) => Err(ModelFault::Output(message)),
    }
}

/// Whether the import of a model cannot end at a node, nor in its being refused.
pub open spec fn admits<M: FloatMath>(
    math: M,
    graph: GraphDef,
    stored: Seq<Option<Vec<u8>>>,
    cuda: bool,
) -> bool {
    forall|result: Result<OnnxGraphResult, ModelFault>| #[trigger]
        model_step(math, graph, stored, cuda, result) ==> result is Ok || result matches Err(
            ModelFault::Output(_),
        )
}

/// The node of each named tensor.
fn collect_ids(tensors: &NameMap<GraphTensor>) -> (found: NameMap<usize>)
    requires
        tensors.wf(),
    ensures
        found@ == ids(handles(*tensors)),
        found.wf(),
        found.names() == tensors.names(),
{
    let ghost names = tensors.names();
    let mut found: NameMap<usize> = NameMap::new();
    let mut i: usize = 0;
    assert(names.subrange(0, 0) =~= Seq::<Seq<char>>::empty());
    while i < tensors.len()
        invariant
            tensors.wf(),
            names == tensors.names(),
            i <= names.len(),
            found.wf(),
            found.names() == names.subrange(0, i as int),
            forall|k: int|
                0 <= k < i ==> found@.contains_key(#[trigger] names[k]) && found@[names[k]]
                    == handles(*tensors)[names[k]].id,
        decreases names.len() - i,
    {
        let name = tensors.name(i);
        proof {
            assert(names.to_set().contains(names[i as int]));
            assert(tensors@.contains_key(name@));
            assert(!found.names().contains(name@));
            assert(found.names().to_set().contains(name@) == found.names().contains(name@));
            assert(!found@.dom().contains(name@));
        }
        if let Some(tensor) = tensors.get(name.as_str()) {
            found.insert(name.as_str(), tensor.id);
        }
        i = i + 1;
        assert(found.names() =~= names.subrange(0, i as int));
    }
    assert(names.subrange(0, i as int) =~= names);
    proof {
        assert forall|name: Seq<char>| found@.contains_key(name) implies found@[name] == ids(
            handles(*tensors),
        )[name] by {
            assert(names.to_set().contains(name));
            let k = choose|k: int| 0 <= k < names.len() && names[k] == name;
            assert(found@[names[k]] == handles(*tensors)[names[k]].id);
        }
        assert(found@.dom() =~= ids(handles(*tensors)).dom());
        assert(found@ =~= ids(handles(*tensors)));
    }
    found
}

/// The names of a map.
fn copy_names<V>(map: &NameMap<V>) -> (names: Vec<String>)
    ensures
        texts(names@) == map.names(),
{
    let mut names: Vec<String> = Vec::new();
    let mut i: usize = 0;
    assert(texts(names@) =~= map.names().subrange(0, 0));
    while i < map.len()
        invariant
            i <= map.names().len(),
            texts(names@) == map.names().subrange(0, i as int),
        decreases map.names().len() - i,
    {
        let ghost before = names@;
        names.push(map.name(i).clone());
        assert(texts(names@) =~= texts(before).push(map.names()[i as int]));
        i = i + 1;
        assert(texts(names@) =~= map.names().subrange(0, i as int));
    }
    assert(map.names().subrange(0, i as int) =~= map.names());
    names
}

/// Gives the nodes their data, if the numbers of elements are representable.
fn feed(
    graph: &GraphDef,
    stored: &Vec<Option<Vec<u8>>>,
    cuda: bool,
    tensors: &NameMap<GraphTensor>,
    weights: &Vec<(String, Vec<u32>)>,
    input_names: &Vec<String>,
) -> (runtime: Option<Runtime>)
    requires
        all_flip(*graph, stored@, handles(*tensors)),
        texts(input_names@) == model_inputs(*graph, graph.input@.len()),
    ensures
        ({
            let countable = can_count(
                *graph,
                data(*weights),
                handles(*tensors),
                zeroed_names(*graph, tensors.names(), cuda),
            );
            match runtime {
                Some(r) => {
                    &&& countable
                    &&& r.cuda == cuda
                    &&& r@ == fed(
                        *graph,
                        stored@,
                        tensors.names(),
                        handles(*tensors),
                        data(*weights),
                        cuda,
                    )
                },
                None => !countable,
            }
        }),
{
    let mut runtime = Runtime::new(cuda);
    let zeroed = if cuda {
        set_zeros(&mut runtime, graph, weights, tensors, &copy_names(tensors))
    } else {
        set_zeros(&mut runtime, graph, weights, tensors, input_names)
    };
    if !zeroed {
        return None;
    }
    set_initializers(&mut runtime, graph, stored, tensors, cuda);
    set_weights(&mut runtime, weights, tensors, !cuda);
    Some(runtime)
}

/// Completes a model whose nodes were imported.
fn complete(
    graph: &GraphDef,
    stored: &Vec<Option<Vec<u8>>>,
    cuda: bool,
    tensors: NameMap<GraphTensor>,
    context: ComputeGraph,
    weights: Vec<(String, Vec<u32>)>,
    Ghost(end): Ghost<State>,
) -> (result: Result<OnnxGraphResult, ModelFault>)
    requires
        valid(tensors, context),
        context.outputs@.len() == 0,
        end.tensors == handles(tensors),
        end.env == env(tensors, context),
        is_coherent(end),
        end.weights == data(weights),
    ensures
        completed(*graph, stored@, cuda, tensors.names(), end, result),
{
    let mut context = context;
    let mut weights = weights;
    let ghost nodes_before = context.nodes@;
    let (output_names, output_shapes) = match mark_outputs(graph, &tensors, &mut context) {
        Ok(found) => found,
        Err(message) => {
            return Err(ModelFault::Output(message));
        },
    };
    if !add_initializer_data(graph, stored, &tensors, &mut weights) {
        return Err(ModelFault::Rejected);
    }
    if !add_alias_data(&tensors, &mut weights) {
        return Err(ModelFault::Rejected);
    }
    assert(data(weights) == all_data(*graph, stored@, tensors.names(), end));
    let input_names = find_input_names(graph);
    let runtime = match feed(graph, stored, cuda, &tensors, &weights, &input_names) {
        Some(runtime) => runtime,
        None => {
            return Err(ModelFault::Rejected);
        },
    };
    let tensor_ids = collect_ids(&tensors);
    let withheld = if cuda {
        Vec::new()
    } else {
        find_exchanged(&weights, &tensors)
    };
    assert(cuda ==> node_list(withheld@) =~= Seq::empty());
    proof {
        assert(tensor_ids@.dom() =~= end.env.dom());
        let found = found_outputs(*graph, end.tensors, graph.output@.len());
        assert forall|i: int| 0 <= i < found.len() implies asked(context.outputs@)[i]
            == end.tensors[found[i].0] by {
            assert(found[i] == output_list(output_names@, output_shapes@)[i]);
        }
        assert(asked(context.outputs@) =~= Seq::new(
            found.len(),
            |i: int| end.tensors[found[i].0],
        ));
        assert forall|name: Seq<char>| #[trigger] end.tensors.contains_key(name) implies {
            &&& context.holds(end.tensors[name])
            &&& context.meaning(end.tensors[name]) == end.env[name]
        } by {
            assert(tensors@.contains_key(name));
        }
    }
    Ok(
        OnnxGraphResult {
            context,
            runtime,
            tensor_ids,
            withheld,
            input_names,
            output_names,
            output_shapes,
        },
    )
}

impl OnnxGraphResult {
    /// Imports a model whose nodes can all be imported. `stored` holds for each
    /// initializer what was read of the file that its elements lie in, if they
    /// lie in one, and `backend` says what the graph is to run on: `cuda`, or
    /// anything else for the processor. It fails if an output lacks its sizes.
    pub fn parse_model<M: FloatMath>(
        model: &ModelDef,
        stored: &Vec<Option<Vec<u8>>>,
        backend: &str,
        math: &M,
    ) -> (result: Result<OnnxGraphResult, String>)
        requires
            admits(*math, model.graph, stored@, backend@ == "cuda"@),
        ensures
            model_step(
                *math,
                model.graph,
                stored@,
                backend@ == "cuda"@,
                with_message(result),
            ),
    {
        let faulty = OnnxGraphResult::try_parse_model(model, stored, backend, math);
        match faulty {
            Ok(r) => Ok(r),
            Err(ModelFault::Output(message)) => Err(message),
            _ => unreached(),
        }
    }

    /// Imports any model. The result says whether it fails at a node, or cannot
    /// be imported at all.
    pub fn try_parse_model<M: FloatMath>(
        model: &ModelDef,
        stored: &Vec<Option<Vec<u8>>>,
        backend: &str,
        math: &M,
    ) -> (result: Result<OnnxGraphResult, ModelFault>)
        ensures
            model_step(*math, model.graph, stored@, backend@ == "cuda"@, result),
    {
        let graph = &model.graph;
        let cuda = text_is(&String::from_str(backend), "cuda");
        let (mut tensors, mut context) = place_tensors(graph);
        let mut weights: Vec<(String, Vec<u32>)> = Vec::new();
        let mut known = match read_small_values(graph) {
            Some(known) => known,
            None => {
                return Err(ModelFault::Rejected);
            },
        };
        let ghost begin = state(tensors, context, data(weights), values(known));
        proof {
            lemma_coherent(tensors, context, data(weights), values(known));
        }
        assert(data(weights) =~= Seq::<(Seq<char>, Seq<u32>)>::empty());
        let nodes = try_process_onnx_nodes(
            &graph.node,
            &mut tensors,
            &mut context,
            &mut weights,
            &mut known,
            math,
        );
        let ghost end = state(tensors, context, data(weights), values(known));
        proof {
            lemma_coherent(tensors, context, data(weights), values(known));
        }
        let ghost names = tensors.names();
        let ghost so_far = outcome(nodes);
        assert(end.tensors.dom() =~= tensors@.dom());
        let result = match nodes {
            Ok(()) => complete(graph, stored, cuda, tensors, context, weights, Ghost(end)),
            Err(Fault::Error(message)) => Err(ModelFault::Node(message)),
            Err(Fault::Rejected) => Err(ModelFault::Rejected),
        };
        assert(imported(*math, *graph, stored@, cuda, begin, end, names, so_far, result));
        result
    }

    /// The names of the inputs of the model.
    pub fn input_names(&self) -> (names: &Vec<String>)
        ensures
            *names == self.input_names,
    {
        &self.input_names
    }

    /// The names of the outputs of the model.
    pub fn output_names(&self) -> (names: &Vec<String>)
        ensures
            *names == self.output_names,
    {
        &self.output_names
    }

    /// The sizes of the outputs of the model.
    pub fn output_shapes(&self) -> (shapes: &Vec<Vec<usize>>)
        ensures
            *shapes == self.output_shapes,
    {
        &self.output_shapes
    }

    /// The names of all tensors.
    pub fn tensor_names(&self) -> (names: Vec<String>)
        ensures
            texts(names@) == self.tensor_ids.names(),
    {
        copy_names(&self.tensor_ids)
    }

    /// The name of what the graph runs on.
    pub fn backend(&self) -> (name: &'static str)
        ensures
            name@ == if self.runtime.cuda {
                "cuda"@
            } else {
                "native"@
            },
    {
        self.runtime.name()
    }

    /// Gives a tensor its data. It fails if there is no tensor of that name.
    pub fn set_input(&mut self, name: &str, elements: Vec<u32>) -> (result: Result<(), String>)
        ensures
            final(self).context == old(self).context,
            final(self).tensor_ids == old(self).tensor_ids,
            final(self).withheld == old(self).withheld,
            final(self).input_names == old(self).input_names,
            final(self).output_names == old(self).output_names,
            final(self).output_shapes == old(self).output_shapes,
            match result {
                Ok(()) => {
                    &&& old(self).tensor_ids@.contains_key(name@)
                    &&& final(self).runtime.cuda == old(self).runtime.cuda
                    &&& final(self).runtime@ == old(self).runtime@.insert(
                        old(self).tensor_ids@[name@],
                        elements@,
                    )
                },
                Err(message) => {
                    &&& !old(self).tensor_ids@.contains_key(name@)
                    &&& message@ == "Unknown input tensor: "@ + name@
                    &&& final(self).runtime == old(self).runtime
                },
            },
    {
        match self.tensor_ids.get(name) {
            Some(id) => {
                let id: usize = *id;
                self.runtime.set_data(id, elements);
                Ok(())
            },
            None => {
                let message = join("Unknown input tensor: ", name, "");
                proof {
                    reveal_strlit("");
                    assert(message@ =~= "Unknown input tensor: "@ + name@);
                }
                Err(message)
            },
        }
    }

    /// The node whose result is that of an output. It fails if there is no
    /// tensor of that name.
    pub fn output_id(&self, name: &str) -> (result: Result<usize, String>)
        ensures
            match result {
                Ok(id) => self.tensor_ids@.contains_key(name@) && id == self.tensor_ids@[name@],
                Err(message) => {
                    &&& !self.tensor_ids@.contains_key(name@)
                    &&& message@ == "Unknown output tensor: "@ + name@
                },
            },
    {
        match self.tensor_ids.get(name) {
            Some(id) => Ok(*id),
            None => {
                let message = join("Unknown output tensor: ", name, "");
                proof {
                    reveal_strlit("");
                    assert(message@ =~= "Unknown output tensor: "@ + name@);
                }
                Err(message)
            },
        }
    }
}

/// No input of a model is an initializer.
pub proof fn law_inputs_are_no_initializers(graph: GraphDef, n: nat, i: int)
    requires
        n <= graph.input@.len(),
        0 <= i < model_inputs(graph, n).len(),
    ensures
        !is_initializer(graph, model_inputs(graph, n)[i]),
    decreases n,
{
    if n > 0 {
        if i < model_inputs(graph, (n - 1) as nat).len() {
            law_inputs_are_no_initializers(graph, (n - 1) as nat, i);
        }
    }
}

/// Every initializer has a tensor before the nodes are imported.
pub proof fn law_initializers_have_tensors(graph: GraphDef, n: nat, i: int)
    requires
        n <= graph.initializer@.len(),
        0 <= i < n,
    ensures
        placed_tensors(graph, n).contains_key(graph.initializer@[i].name@),
    decreases n,
{
    if i < n - 1 {
        law_initializers_have_tensors(graph, (n - 1) as nat, i);
    }
}

/// What is known before the nodes are imported is known of tensors.
pub proof fn law_beginning_knows_tensors(graph: GraphDef, begin: State)
    requires
        is_beginning(graph, begin),
    ensures
        known_are_named(begin),
{
    let n = graph.initializer@.len();
    assert forall|name: Seq<char>| #[trigger] begin.known.contains_key(
        name,
    ) implies begin.env.contains_key(name) by {
        lemma_small_values_named(graph, n, name);
    }
}

proof fn lemma_small_values_named(graph: GraphDef, n: nat, name: Seq<char>)
    requires
        n <= graph.initializer@.len(),
        small_values(graph, n).contains_key(name),
    ensures
        placed_tensors(graph, graph.initializer@.len()).contains_key(name),
    decreases n,
{
    if n > 0 {
        if name == graph.initializer@[n - 1].name@ {
            law_initializers_have_tensors(graph, graph.initializer@.len(), n - 1);
        } else {
            lemma_small_values_named(graph, (n - 1) as nat, name);
        }
    }
}

/// Every output that is listed has a tensor and sizes.
pub proof fn law_outputs_have_tensors(
    graph: GraphDef,
    tensors: Map<Seq<char>, Handle>,
    n: nat,
    i: int,
)
    requires
        n <= graph.output@.len(),
        outputs_outcome(graph, tensors, n) is Done,
        0 <= i < found_outputs(graph, tensors, n).len(),
    ensures
        tensors.contains_key(found_outputs(graph, tensors, n)[i].0),
        found_outputs(graph, tensors, n)[i].1.len() > 0,
    decreases n,
{
    if n > 0 {
        if i < found_outputs(graph, tensors, (n - 1) as nat).len() {
            law_outputs_have_tensors(graph, tensors, (n - 1) as nat, i);
        }
    }
}

/// Every input whose sizes are known has a tensor before the nodes are imported.
pub proof fn law_inputs_have_tensors(graph: GraphDef, n: nat, i: int)
    requires
        n <= graph.input@.len(),
        0 <= i < n,
        shape_of(graph.input@[i]).len() > 0,
    ensures
        input_tensors(graph, n).contains_key(graph.input@[i].name@),
    decreases n,
{
    if i < n - 1 {
        law_inputs_have_tensors(graph, (n - 1) as nat, i);
    }
}

proof fn lemma_inputs_placed(graph: GraphDef, n: nat, name: Seq<char>)
    requires
        input_tensors(graph, graph.input@.len()).contains_key(name),
    ensures
        placed_tensors(graph, n).contains_key(name),
    decreases n,
{
    if n > 0 {
        lemma_inputs_placed(graph, (n - 1) as nat, name);
    }
}

/// An imported model has the node of every initializer, of every input whose
/// sizes are known, and of every output that it lists.
pub proof fn law_ids_name_the_model<M: FloatMath>(
    math: M,
    graph: GraphDef,
    stored: Seq<Option<Vec<u8>>>,
    cuda: bool,
    r: OnnxGraphResult,
)
    requires
        model_step(math, graph, stored, cuda, Ok(r)),
    ensures
        forall|i: int|
            0 <= i < graph.initializer@.len() ==> r.tensor_ids@.contains_key(
                (#[trigger] graph.initializer@[i]).name@,
            ),
        forall|i: int|
            0 <= i < graph.input@.len() && shape_of(#[trigger] graph.input@[i]).len() > 0
                ==> r.tensor_ids@.contains_key(graph.input@[i].name@),
        forall|i: int|
            0 <= i < r.output_names@.len() ==> r.tensor_ids@.contains_key(
                (#[trigger] r.output_names@[i])@,
            ),
{
    let result: Result<OnnxGraphResult, ModelFault> = Ok(r);
    let (begin, end, names, nodes) = choose|
        begin: State,
        end: State,
        names: Seq<Seq<char>>,
        nodes: Outcome,
    | #[trigger]
        imported(math, graph, stored, cuda, begin, end, names, nodes, result);
    let count = graph.initializer@.len();
    assert(nodes is Done);
    assert forall|name: Seq<char>| placed_tensors(graph, count).contains_key(
        name,
    ) implies #[trigger] r.tensor_ids@.contains_key(name) by {
        assert(begin.env.dom().contains(name));
        assert(begin.tensors.dom().contains(name));
        law_import_keeps_names(math, graph.node@, begin, end, nodes, name);
    }
    assert forall|i: int| 0 <= i < count implies r.tensor_ids@.contains_key(
        (#[trigger] graph.initializer@[i]).name@,
    ) by {
        law_initializers_have_tensors(graph, count, i);
    }
    assert forall|i: int|
        0 <= i < graph.input@.len() && shape_of(
            #[trigger] graph.input@[i],
        ).len() > 0 implies r.tensor_ids@.contains_key(graph.input@[i].name@) by {
        law_inputs_have_tensors(graph, graph.input@.len(), i);
        lemma_inputs_placed(graph, count, graph.input@[i].name@);
    }
    assert forall|i: int| 0 <= i < r.output_names@.len() implies r.tensor_ids@.contains_key(
        (#[trigger] r.output_names@[i])@,
    ) by {
        let outputs = graph.output@.len();
        assert(output_list(r.output_names@, r.output_shapes@)[i].0 == r.output_names@[i]@);
        lemma_outputs_not_rejected(graph, end.tensors, outputs);
        law_outputs_have_tensors(graph, end.tensors, outputs, i);
    }
}

proof fn lemma_outputs_not_rejected(graph: GraphDef, tensors: Map<Seq<char>, Handle>, n: nat)
    ensures
        !(outputs_outcome(graph, tensors, n) is Rejects),
    decreases n,
{
    if n > 0 {
        lemma_outputs_not_rejected(graph, tensors, (n - 1) as nat);
    }
}

} // verus!
