//! The data that the nodes of a graph are given before it runs.

use crate::bits::ZERO;
use crate::fold::{repeat, transpose_weight_data};
#[allow(unused_imports)]
use crate::fold::transposed;
use crate::graph::GraphTensor;
#[allow(unused_imports)]
use crate::graph::Handle;
use crate::names::{ends_with, join, NameMap};
#[allow(unused_imports)]
use crate::names::{ends_in, texts};
use crate::ops::constant::find_data;
#[allow(unused_imports)]
use crate::ops::constant::first_data;
#[allow(unused_imports)]
use crate::ops::matrix::kn_name;
use crate::proto::{copy_bits, get_shape_for_onnx_value, load_tensor_floats, sizes, GraphDef};
#[allow(unused_imports)]
use crate::proto::{floats_of, shape_of, stored_bytes, tensor_sizes, TensorDef, ValueDef};
use crate::shape::checked_product;
#[allow(unused_imports)]
use crate::shape::bounded_product;
#[allow(unused_imports)]
use crate::state::{data, handles};
use std::collections::HashMap;
use vstd::prelude::*;

verus! {

broadcast use vstd::std_specs::hash::group_hash_axioms;

/// The data of the nodes of a graph, and where the graph runs.
pub struct Runtime {
    pub cuda: bool,
    pub buffers: HashMap<usize, Vec<u32>>,
}

impl View for Runtime {
    type V = Map<usize, Seq<u32>>;

    open spec fn view(&self) -> Map<usize, Seq<u32>> {
        self.buffers@.map_values(|v: Vec<u32>| v@)
    }
}

impl Runtime {
    /// A runtime without data.
    pub fn new(cuda: bool) -> (runtime: Runtime)
        ensures
            runtime.cuda == cuda,
            runtime@ == Map::<usize, Seq<u32>>::empty(),
    {
        let runtime = Runtime { cuda, buffers: HashMap::new() };
        assert(runtime@ =~= Map::<usize, Seq<u32>>::empty());
        runtime
    }

    /// The name of what the graph runs on.
    pub fn name(&self) -> (name: &'static str)
        ensures
            name@ == if self.cuda {
                "cuda"@
            } else {
                "native"@
            },
    {
        if self.cuda {
            "cuda"
        } else {
            "native"
        }
    }

    /// Gives a node its data, in place of what it had.
    pub fn set_data(&mut self, id: usize, elements: Vec<u32>)
        ensures
            final(self).cuda == old(self).cuda,
            final(self)@ == old(self)@.insert(id, elements@),
    {
        self.buffers.insert(id, elements);
        assert(self@ =~= old(self)@.insert(id, elements@));
    }

    /// The data of a node.
    pub fn data_of(&self, id: usize) -> (found: Option<&Vec<u32>>)
        ensures
            match found {
                Some(v) => self@.contains_key(id) && v@ == self@[id],
                None => !self@.contains_key(id),
            },
    {
        self.buffers.get(&id)
    }
}

/// The position of the first input called `name`, from `from` on.
pub open spec fn input_at(inputs: Seq<ValueDef>, name: Seq<char>, from: int) -> Option<int>
    decreases inputs.len() - from,
{
    if from < 0 || from >= inputs.len() {
        None
    } else if inputs[from].name@ == name {
        Some(from)
    } else {
        input_at(inputs, name, from + 1)
    }
}

/// The position of the first initializer called `name`, from `from` on.
pub open spec fn initializer_at(initializers: Seq<TensorDef>, name: Seq<char>, from: int) -> Option<
    int,
>
    decreases initializers.len() - from,
{
    if from < 0 || from >= initializers.len() {
        None
    } else if initializers[from].name@ == name {
        Some(from)
    } else {
        initializer_at(initializers, name, from + 1)
    }
}

/// The number of elements of a named tensor, if it is representable: as many as
/// its sizes as an input or an initializer say, or as its data has.
pub open spec fn element_count(
    graph: GraphDef,
    weights: Seq<(Seq<char>, Seq<u32>)>,
    name: Seq<char>,
) -> Option<usize> {
    match input_at(graph.input@, name, 0) {
        Some(i) => bounded_product(shape_of(graph.input@[i])),
        None => match initializer_at(graph.initializer@, name, 0) {
            Some(i) => bounded_product(tensor_sizes(graph.initializer@[i])),
            None => match first_data(weights, name, 0) {
                Some(v) => Some(v.len() as usize),
                None => Some(0),
            },
        },
    }
}

/// The number of elements of a named tensor.
pub fn compute_n_elements(graph: &GraphDef, weights: &Vec<(String, Vec<u32>)>, name: &String) -> (count:
    Option<usize>)
    ensures
        count == element_count(*graph, data(*weights), name@),
{
    let mut i: usize = 0;
    while i < graph.input.len()
        invariant
            i <= graph.input@.len(),
            input_at(graph.input@, name@, 0) == input_at(graph.input@, name@, i as int),
        decreases graph.input.len() - i,
    {
        if graph.input[i].name == *name {
            return checked_product(&get_shape_for_onnx_value(&graph.input[i]));
        }
        i = i + 1;
    }
    let mut j: usize = 0;
    while j < graph.initializer.len()
        invariant
            input_at(graph.input@, name@, 0) is None,
            j <= graph.initializer@.len(),
            initializer_at(graph.initializer@, name@, 0) == initializer_at(
                graph.initializer@,
                name@,
                j as int,
            ),
        decreases graph.initializer.len() - j,
    {
        if graph.initializer[j].name == *name {
            return checked_product(&sizes(&graph.initializer[j]));
        }
        j = j + 1;
    }
    match find_data(weights, name) {
        Some(v) => Some(v.len()),
        None => Some(0),
    }
}

/// The data of the nodes after the first `n` of some tensors have got zeros, as
/// many as they have elements.
pub open spec fn with_zeros(
    graph: GraphDef,
    weights: Seq<(Seq<char>, Seq<u32>)>,
    tensors: Map<Seq<char>, Handle>,
    names: Seq<Seq<char>>,
    buffers: Map<usize, Seq<u32>>,
    n: nat,
) -> Map<usize, Seq<u32>>
    decreases n,
{
    if n == 0 {
        buffers
    } else {
        let before = with_zeros(graph, weights, tensors, names, buffers, (n - 1) as nat);
        let name = names[n - 1];
        let count = element_count(graph, weights, name)->0;
        if tensors.contains_key(name) && count > 0 {
            before.insert(
                tensors[name].id as usize,
                Seq::new(count as nat, |i: int| ZERO),
            )
        } else {
            before
        }
    }
}

/// Whether the numbers of elements of all named tensors are representable.
pub open spec fn can_count(
    graph: GraphDef,
    weights: Seq<(Seq<char>, Seq<u32>)>,
    tensors: Map<Seq<char>, Handle>,
    names: Seq<Seq<char>>,
) -> bool {
    forall|i: int|
        0 <= i < names.len() ==> tensors.contains_key(#[trigger] names[i]) ==> element_count(
            graph,
            weights,
            names[i],
        ) is Some
}

/// Gives tensors zeros, as many as they have elements, if these numbers are
/// representable.
pub fn set_zeros(
    runtime: &mut Runtime,
    graph: &GraphDef,
    weights: &Vec<(String, Vec<u32>)>,
    tensors: &NameMap<GraphTensor>,
    names: &Vec<String>,
) -> (done: bool)
    ensures
        final(runtime).cuda == old(runtime).cuda,
        done == can_count(*graph, data(*weights), handles(*tensors), texts(names@)),
        done ==> final(runtime)@ == with_zeros(
            *graph,
            data(*weights),
            handles(*tensors),
            texts(names@),
            old(runtime)@,
            names@.len(),
        ),
{
    let ghost list = texts(names@);
    let mut i: usize = 0;
    while i < names.len()
        invariant
            list == texts(names@),
            i <= names@.len(),
            runtime.cuda == old(runtime).cuda,
            forall|k: int|
                0 <= k < i ==> handles(*tensors).contains_key(#[trigger] list[k])
                    ==> element_count(*graph, data(*weights), list[k]) is Some,
            runtime@ == with_zeros(
                *graph,
                data(*weights),
                handles(*tensors),
                list,
                old(runtime)@,
                i as nat,
            ),
        decreases names.len() - i,
    {
        assert(list[i as int] == names@[i as int]@);
        if let Some(tensor) = tensors.get(names[i].as_str()) {
            match compute_n_elements(graph, weights, &names[i]) {
                Some(count) => {
                    if count > 0 {
                        runtime.set_data(tensor.id, repeat(ZERO, count));
                    }
                },
                None => {
                    return false;
                },
            }
        }
        i = i + 1;
    }
    true
}

/// What was read of the file that initializer `i` lies in.
pub open spec fn stored_at(stored: Seq<Option<Vec<u8>>>, i: int) -> Option<Seq<u8>> {
    if 0 <= i < stored.len() {
        stored_bytes(stored[i])
    } else {
        None
    }
}

/// The elements of initializer `i`.
pub open spec fn initializer_floats(graph: GraphDef, stored: Seq<Option<Vec<u8>>>, i: int) -> Option<
    Seq<u32>,
> {
    floats_of(graph.initializer@[i], stored_at(stored, i))
}

/// The elements of initializer `i`.
pub fn load_floats(graph: &GraphDef, stored: &Vec<Option<Vec<u8>>>, i: usize) -> (values: Option<
    Vec<u32>,
>)
    requires
        i < graph.initializer@.len(),
    ensures
        match values {
            Some(v) => initializer_floats(*graph, stored@, i as int) == Some(v@),
            None => initializer_floats(*graph, stored@, i as int) is None,
        },
{
    if i < stored.len() {
        load_tensor_floats(&graph.initializer[i], &stored[i])
    } else {
        load_tensor_floats(&graph.initializer[i], &None)
    }
}

/// Whether initializer `i` is a matrix that there is a tensor for with rows and
/// columns exchanged.
pub open spec fn has_flipped(graph: GraphDef, tensors: Map<Seq<char>, Handle>, i: int) -> bool {
    let t = graph.initializer@[i];
    tensors.contains_key(kn_name(t.name@)) && t.dims@.len() == 2
}

/// The elements of initializer `i` with rows and columns exchanged.
pub open spec fn flipped(graph: GraphDef, stored: Seq<Option<Vec<u8>>>, i: int) -> Seq<u32> {
    let t = graph.initializer@[i];
    transposed(
        initializer_floats(graph, stored, i)->0,
        tensor_sizes(t)[0] as int,
        tensor_sizes(t)[1] as int,
    )
}

/// Whether initializer `i`, if it has elements and there is a tensor for it with
/// rows and columns exchanged, has as many as its sizes say.
pub open spec fn can_flip(
    graph: GraphDef,
    stored: Seq<Option<Vec<u8>>>,
    tensors: Map<Seq<char>, Handle>,
    i: int,
) -> bool {
    let values = initializer_floats(graph, stored, i);
    let shape = tensor_sizes(graph.initializer@[i]);
    values is Some && has_flipped(graph, tensors, i) ==> shape[0] * shape[1] <= values->0.len()
}

/// The data of the nodes after the first `n` initializers have given theirs,
/// with rows and columns exchanged too if `flip` is set.
pub open spec fn with_initializers(
    graph: GraphDef,
    stored: Seq<Option<Vec<u8>>>,
    tensors: Map<Seq<char>, Handle>,
    flip: bool,
    buffers: Map<usize, Seq<u32>>,
    n: nat,
) -> Map<usize, Seq<u32>>
    decreases n,
{
    if n == 0 {
        buffers
    } else {
        let before = with_initializers(graph, stored, tensors, flip, buffers, (n - 1) as nat);
        let name = graph.initializer@[n - 1].name@;
        match initializer_floats(graph, stored, n - 1) {
            None => before,
            Some(v) => {
                let own = if tensors.contains_key(name) {
                    before.insert(tensors[name].id as usize, v)
                } else {
                    before
                };
                if flip && has_flipped(graph, tensors, n - 1) {
                    own.insert(
                        tensors[kn_name(name)].id as usize,
                        flipped(graph, stored, n - 1),
                    )
                } else {
                    own
                }
            },
        }
    }
}

/// Gives the initializers their elements.
pub fn set_initializers(
    runtime: &mut Runtime,
    graph: &GraphDef,
    stored: &Vec<Option<Vec<u8>>>,
    tensors: &NameMap<GraphTensor>,
    flip: bool,
)
    requires
        forall|i: int|
            0 <= i < graph.initializer@.len() ==> #[trigger] can_flip(
                *graph,
                stored@,
                handles(*tensors),
                i,
            ),
    ensures
        final(runtime).cuda == old(runtime).cuda,
        final(runtime)@ == with_initializers(
            *graph,
            stored@,
            handles(*tensors),
            flip,
            old(runtime)@,
            graph.initializer@.len(),
        ),
{
    let mut i: usize = 0;
    while i < graph.initializer.len()
        invariant
            forall|k: int|
                0 <= k < graph.initializer@.len() ==> #[trigger] can_flip(
                    *graph,
                    stored@,
                    handles(*tensors),
                    k,
                ),
            i <= graph.initializer@.len(),
            runtime.cuda == old(runtime).cuda,
            runtime@ == with_initializers(
                *graph,
                stored@,
                handles(*tensors),
                flip,
                old(runtime)@,
                i as nat,
            ),
        decreases graph.initializer.len() - i,
    {
        let t = &graph.initializer[i];
        if let Some(values) = load_floats(graph, stored, i) {
            assert(can_flip(*graph, stored@, handles(*tensors), i as int));
            if let Some(tensor) = tensors.get(t.name.as_str()) {
                runtime.set_data(tensor.id, copy_bits(&values));
            }
            if flip && t.dims.len() == 2 {
                let name = flipped_name(&t.name);
                if let Some(tensor) = tensors.get(name.as_str()) {
                    let shape = sizes(t);
                    runtime.set_data(
                        tensor.id,
                        transpose_weight_data(&values, shape[0], shape[1]),
                    );
                }
            }
        }
        i = i + 1;
    }
}

/// The name of a weight matrix with rows and columns exchanged.
pub fn flipped_name(name: &String) -> (r: String)
    ensures
        r@ == kn_name(name@),
{
    let r = join(name.as_str(), "_kn", "");
    proof {
        reveal_strlit("");
        assert(r@ =~= kn_name(name@));
    }
    r
}

/// The data of the nodes after the first `n` named tensors with data have got
/// it, but for those whose rows and columns are exchanged if `skip` is set.
pub open spec fn with_weights(
    weights: Seq<(Seq<char>, Seq<u32>)>,
    tensors: Map<Seq<char>, Handle>,
    skip: bool,
    buffers: Map<usize, Seq<u32>>,
    n: nat,
) -> Map<usize, Seq<u32>>
    decreases n,
{
    if n == 0 {
        buffers
    } else {
        let before = with_weights(weights, tensors, skip, buffers, (n - 1) as nat);
        let (name, v) = weights[n - 1];
        if tensors.contains_key(name) && !(skip && ends_in(name, "_kn"@)) {
            before.insert(tensors[name].id as usize, v)
        } else {
            before
        }
    }
}

/// Gives named tensors their data.
pub fn set_weights(
    runtime: &mut Runtime,
    weights: &Vec<(String, Vec<u32>)>,
    tensors: &NameMap<GraphTensor>,
    skip: bool,
)
    ensures
        final(runtime).cuda == old(runtime).cuda,
        final(runtime)@ == with_weights(
            data(*weights),
            handles(*tensors),
            skip,
            old(runtime)@,
            weights@.len(),
        ),
{
    let mut i: usize = 0;
    while i < weights.len()
        invariant
            i <= weights@.len(),
            runtime.cuda == old(runtime).cuda,
            runtime@ == with_weights(
                data(*weights),
                handles(*tensors),
                skip,
                old(runtime)@,
                i as nat,
            ),
        decreases weights.len() - i,
    {
        assert(data(*weights)[i as int] == (weights@[i as int].0@, weights@[i as int].1@));
        if !(skip && ends_with(weights[i].0.as_str(), "_kn")) {
            if let Some(tensor) = tensors.get(weights[i].0.as_str()) {
                runtime.set_data(tensor.id, copy_bits(&weights[i].1));
            }
        }
        i = i + 1;
    }
}

/// The data of a named tensor is that of its node, if no data that comes later is
/// of the same node.
pub proof fn law_last_data_is_bound(
    weights: Seq<(Seq<char>, Seq<u32>)>,
    tensors: Map<Seq<char>, Handle>,
    skip: bool,
    buffers: Map<usize, Seq<u32>>,
    i: int,
    n: nat,
)
    requires
        0 <= i < n <= weights.len(),
        tensors.contains_key(weights[i].0),
        !(skip && ends_in(weights[i].0, "_kn"@)),
        forall|j: int|
            i < j < n && tensors.contains_key((#[trigger] weights[j]).0)
                ==> tensors[weights[j].0].id as usize != tensors[weights[i].0].id as usize,
    ensures
        with_weights(weights, tensors, skip, buffers, n).contains_key(
            tensors[weights[i].0].id as usize,
        ),
        with_weights(weights, tensors, skip, buffers, n)[tensors[weights[i].0].id as usize]
            == weights[i].1,
    decreases n,
{
    if i < n - 1 {
        law_last_data_is_bound(weights, tensors, skip, buffers, i, (n - 1) as nat);
        assert(weights[n - 1] == weights[n - 1]);
    }
}

/// The data, with its nodes, of the first `n` named tensors whose rows and columns
/// are exchanged.
pub open spec fn exchanged_data(
    weights: Seq<(Seq<char>, Seq<u32>)>,
    tensors: Map<Seq<char>, Handle>,
    n: nat,
) -> Seq<(usize, Seq<u32>)>
    decreases n,
{
    if n == 0 {
        Seq::empty()
    } else {
        let before = exchanged_data(weights, tensors, (n - 1) as nat);
        let (name, v) = weights[n - 1];
        if tensors.contains_key(name) && ends_in(name, "_kn"@) {
            before.push((tensors[name].id as usize, v))
        } else {
            before
        }
    }
}

/// Nodes with their data.
pub open spec fn node_list(list: Seq<(usize, Vec<u32>)>) -> Seq<(usize, Seq<u32>)> {
    list.map_values(|entry: (usize, Vec<u32>)| (entry.0, entry.1@))
}

/// The data, with its nodes, of named tensors whose rows and columns are
/// exchanged.
pub fn find_exchanged(weights: &Vec<(String, Vec<u32>)>, tensors: &NameMap<GraphTensor>) -> (list: Vec<
    (usize, Vec<u32>),
>)
    ensures
        node_list(list@) == exchanged_data(data(*weights), handles(*tensors), weights@.len()),
{
    let mut list: Vec<(usize, Vec<u32>)> = Vec::new();
    let mut i: usize = 0;
    assert(node_list(list@) =~= exchanged_data(data(*weights), handles(*tensors), 0));
    while i < weights.len()
        invariant
            i <= weights@.len(),
            node_list(list@) == exchanged_data(data(*weights), handles(*tensors), i as nat),
        decreases weights.len() - i,
    {
        assert(data(*weights)[i as int] == (weights@[i as int].0@, weights@[i as int].1@));
        if ends_with(weights[i].0.as_str(), "_kn") {
            if let Some(tensor) = tensors.get(weights[i].0.as_str()) {
                let ghost before = list@;
                list.push((tensor.id, copy_bits(&weights[i].1)));
                assert(node_list(list@) =~= node_list(before).push(
                    (tensor.id, weights@[i as int].1@),
                ));
            }
        }
        i = i + 1;
    }
    list
}

} // verus!
