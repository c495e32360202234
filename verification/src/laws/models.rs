//! What a model begins with, what it lists, and the data that its nodes are given.

#[allow(unused_imports)]
use crate::bits::FloatMath;
#[allow(unused_imports)]
use crate::fold::law_transposed_element;
#[allow(unused_imports)]
use crate::graph::{load, Handle};
#[allow(unused_imports)]
use crate::model::{
    alias_data, all_data, completed, fed, found_outputs, imported, initializer_data, input_tensors,
    is_initializer, model_inputs, model_step, node_data, outputs_outcome, placed_tensors,
    small_values, zeroed_names, ModelFault, OnnxGraphResult,
};
#[allow(unused_imports)]
use crate::names::{decimal, ends_in, law_decimal_read_back};
#[allow(unused_imports)]
use crate::ops::constant::first_data;
#[allow(unused_imports)]
use crate::proto::{
    entry_value, location_of, shape_of, tensor_sizes, values_of, GraphDef, TensorDef, ValueDef,
};
#[allow(unused_imports)]
use crate::runtime::{
    can_flip, element_count, exchanged_data, has_flipped, initializer_at, initializer_floats,
    input_at, law_last_data_is_bound, node_list, with_initializers, with_weights, with_zeros,
};
#[allow(unused_imports)]
use crate::shape::{bounded_product, known_dims, lemma_bounded_product, product, Dim};
#[allow(unused_imports)]
use crate::state::{Outcome, State};
use vstd::prelude::*;

verus! {

/// Whether a name is that of an initializer.
pub open spec fn names_initializer(graph: GraphDef, name: Seq<char>) -> bool {
    exists|k: int|
        0 <= k < graph.initializer@.len() && (#[trigger] graph.initializer@[k]).name@ == name
}

/// An input that is no initializer is listed among the inputs of the model, behind
/// those that come before it, and one that is, is not.
pub proof fn law_inputs_are_listed(graph: GraphDef, n: nat, i: int)
    requires
        0 <= i < n <= graph.input@.len(),
    ensures
        ({
            let name = graph.input@[i].name@;
            let before = model_inputs(graph, i as nat);
            let next = model_inputs(graph, (i + 1) as nat);
            let all = model_inputs(graph, n);
            &&& model_inputs(graph, 0).len() == 0
            &&& names_initializer(graph, name) ==> next == before
            &&& !names_initializer(graph, name) ==> {
                &&& next.len() == before.len() + 1
                &&& before.len() < all.len()
                &&& all[before.len() as int] == name
            }
        }),
    decreases n,
{
    let name = graph.input@[i].name@;
    assert(names_initializer(graph, name) == is_initializer(graph, name));
    if i < n - 1 {
        law_inputs_are_listed(graph, (n - 1) as nat, i);
    }
}

/// Whether an input has sizes, all known.
pub open spec fn has_sizes(value: ValueDef, lengths: Seq<usize>) -> bool {
    &&& value.shape is Some
    &&& value.shape->0@.len() == lengths.len()
    &&& forall|a: int|
        0 <= a < lengths.len() ==> (#[trigger] value.shape->0@[a]) is Some && lengths[a]
            == value.shape->0@[a]->0 as usize
}

proof fn lemma_has_sizes(value: ValueDef, lengths: Seq<usize>)
    requires
        has_sizes(value, lengths),
    ensures
        shape_of(value) == lengths,
{
    let dims = value.shape->0;
    assert forall|a: int| 0 <= a < dims@.len() implies (#[trigger] dims@[a]) is Some by {
        assert(value.shape->0@[a] is Some);
    }
    assert(shape_of(value) =~= lengths) by {
        assert forall|a: int| 0 <= a < lengths.len() implies shape_of(value)[a] == lengths[a] by {
            assert(value.shape->0@[a] is Some);
        }
    }
}

/// An input that has sizes, all known, begins as a tensor of its name with these sizes,
/// if no later input has its name.
pub proof fn law_tensor_of_an_input(graph: GraphDef, n: nat, i: int, lengths: Seq<usize>)
    requires
        0 <= i < graph.input@.len(),
        has_sizes(graph.input@[i], lengths),
        lengths.len() > 0,
        forall|j: int|
            i < j < graph.input@.len() ==> (#[trigger] graph.input@[j]).name@
                != graph.input@[i].name@,
    ensures
        ({
            let name = graph.input@[i].name@;
            &&& placed_tensors(graph, n).contains_key(name)
            &&& placed_tensors(graph, n)[name] == load(name, known_dims(lengths))
        }),
    decreases n,
{
    if n > 0 {
        law_tensor_of_an_input(graph, (n - 1) as nat, i, lengths);
    } else {
        lemma_has_sizes(graph.input@[i], lengths);
        lemma_input_tensor(graph, graph.input@.len(), i);
    }
}

proof fn lemma_input_tensor(graph: GraphDef, n: nat, i: int)
    requires
        0 <= i < n <= graph.input@.len(),
        shape_of(graph.input@[i]).len() > 0,
        forall|j: int|
            i < j < n ==> (#[trigger] graph.input@[j]).name@ != graph.input@[i].name@,
    ensures
        ({
            let name = graph.input@[i].name@;
            &&& input_tensors(graph, n).contains_key(name)
            &&& input_tensors(graph, n)[name] == load(
                name,
                known_dims(shape_of(graph.input@[i])),
            )
        }),
    decreases n,
{
    if i < n - 1 {
        lemma_input_tensor(graph, (n - 1) as nat, i);
        assert(graph.input@[n - 1].name@ != graph.input@[i].name@);
    }
}

proof fn lemma_no_input_tensor(graph: GraphDef, n: nat, name: Seq<char>)
    requires
        n <= graph.input@.len(),
        forall|j: int| 0 <= j < graph.input@.len() ==> (#[trigger] graph.input@[j]).name@ != name,
    ensures
        !input_tensors(graph, n).contains_key(name),
    decreases n,
{
    if n > 0 {
        lemma_no_input_tensor(graph, (n - 1) as nat, name);
        assert(graph.input@[n - 1].name@ != name);
    }
}

/// An initializer whose name no input has, nor an initializer before it, begins as a
/// tensor of its name with its sizes.
pub proof fn law_tensor_of_an_initializer(graph: GraphDef, n: nat, i: int)
    requires
        0 <= i < graph.initializer@.len(),
        n <= graph.initializer@.len(),
        forall|j: int|
            0 <= j < graph.input@.len() ==> (#[trigger] graph.input@[j]).name@
                != graph.initializer@[i].name@,
        forall|j: int|
            0 <= j < i ==> (#[trigger] graph.initializer@[j]).name@ != graph.initializer@[i].name@,
    ensures
        ({
            let t = graph.initializer@[i];
            let dims = Seq::new(t.dims@.len(), |a: int| Dim::Known(t.dims@[a] as usize));
            if n > i {
                &&& placed_tensors(graph, n).contains_key(t.name@)
                &&& placed_tensors(graph, n)[t.name@] == load(t.name@, dims)
            } else {
                !placed_tensors(graph, n).contains_key(t.name@)
            }
        }),
    decreases n,
{
    let t = graph.initializer@[i];
    if n == 0 {
        lemma_no_input_tensor(graph, graph.input@.len(), t.name@);
    } else {
        law_tensor_of_an_initializer(graph, (n - 1) as nat, i);
        if n - 1 < i {
            assert(graph.initializer@[n - 1].name@ != t.name@);
        }
        assert(known_dims(tensor_sizes(t)) =~= Seq::new(
            t.dims@.len(),
            |a: int| Dim::Known(t.dims@[a] as usize),
        ));
    }
}

/// The elements of an initializer that stand in the model are known from the beginning
/// if there are at most 32, and if no later initializer has its name; those of others
/// are not.
pub proof fn law_small_initializers_are_known(graph: GraphDef, n: nat, i: int)
    requires
        0 <= i < n <= graph.initializer@.len(),
        bounded_product(tensor_sizes(graph.initializer@[i])) is Some,
        forall|j: int|
            0 <= j < n && j != i ==> (#[trigger] graph.initializer@[j]).name@
                != graph.initializer@[i].name@,
    ensures
        ({
            let t = graph.initializer@[i];
            let known = small_values(graph, n);
            if values_of(t) is Some && values_of(t)->0.len() > 0 && product(tensor_sizes(t))
                <= 32 {
                known.contains_key(t.name@) && known[t.name@] == values_of(t)->0
            } else {
                !known.contains_key(t.name@)
            }
        }),
    decreases n,
{
    lemma_bounded_product(tensor_sizes(graph.initializer@[i]));
    if i < n - 1 {
        law_small_initializers_are_known(graph, (n - 1) as nat, i);
        assert(graph.initializer@[n - 1].name@ != graph.initializer@[i].name@);
    } else {
        lemma_not_known(graph, i as nat, graph.initializer@[i].name@);
    }
}

proof fn lemma_not_known(graph: GraphDef, n: nat, name: Seq<char>)
    requires
        n <= graph.initializer@.len(),
        forall|j: int| 0 <= j < n ==> (#[trigger] graph.initializer@[j]).name@ != name,
    ensures
        !small_values(graph, n).contains_key(name),
    decreases n,
{
    if n > 0 {
        lemma_not_known(graph, (n - 1) as nat, name);
        assert(graph.initializer@[n - 1].name@ != name);
    }
}

/// An output that there is a tensor for is listed with its sizes, behind those that
/// come before it, and one that there is none for is not.
pub proof fn law_outputs_are_listed(
    graph: GraphDef,
    tensors: Map<Seq<char>, Handle>,
    n: nat,
    i: int,
)
    requires
        0 <= i < n <= graph.output@.len(),
    ensures
        ({
            let output = graph.output@[i];
            let before = found_outputs(graph, tensors, i as nat);
            let next = found_outputs(graph, tensors, (i + 1) as nat);
            let all = found_outputs(graph, tensors, n);
            &&& found_outputs(graph, tensors, 0).len() == 0
            &&& !tensors.contains_key(output.name@) ==> next == before
            &&& tensors.contains_key(output.name@) ==> {
                &&& next.len() == before.len() + 1
                &&& before.len() < all.len()
                &&& all[before.len() as int] == (output.name@, shape_of(output))
            }
        }),
    decreases n,
{
    if i < n - 1 {
        law_outputs_are_listed(graph, tensors, (n - 1) as nat, i);
    }
}

proof fn lemma_input_at(inputs: Seq<ValueDef>, name: Seq<char>, from: int, i: int)
    requires
        0 <= from <= i <= inputs.len(),
        forall|j: int| 0 <= j < i ==> (#[trigger] inputs[j]).name@ != name,
        i < inputs.len() ==> inputs[i].name@ == name,
    ensures
        input_at(inputs, name, from) == if i < inputs.len() {
            Some(i)
        } else {
            None
        },
    decreases i - from,
{
    if from < i {
        assert(inputs[from].name@ != name);
        lemma_input_at(inputs, name, from + 1, i);
    }
}

proof fn lemma_initializer_at(list: Seq<TensorDef>, name: Seq<char>, from: int, i: int)
    requires
        0 <= from <= i <= list.len(),
        forall|j: int| 0 <= j < i ==> (#[trigger] list[j]).name@ != name,
        i < list.len() ==> list[i].name@ == name,
    ensures
        initializer_at(list, name, from) == if i < list.len() {
            Some(i)
        } else {
            None
        },
    decreases i - from,
{
    if from < i {
        assert(list[from].name@ != name);
        lemma_initializer_at(list, name, from + 1, i);
    }
}

proof fn lemma_first_data(
    weights: Seq<(Seq<char>, Seq<u32>)>,
    name: Seq<char>,
    from: int,
    i: int,
)
    requires
        0 <= from <= i <= weights.len(),
        forall|j: int| 0 <= j < i ==> (#[trigger] weights[j]).0 != name,
        i < weights.len() ==> weights[i].0 == name,
    ensures
        first_data(weights, name, from) == if i < weights.len() {
            Some(weights[i].1)
        } else {
            None
        },
    decreases i - from,
{
    if from < i {
        assert(weights[from].0 != name);
        lemma_first_data(weights, name, from + 1, i);
    }
}

/// A named tensor has as many elements as the sizes of the first input of its name say,
/// or else those of the first initializer of its name, or else as the first data under
/// its name has, or else none.
pub proof fn law_number_of_elements(
    graph: GraphDef,
    weights: Seq<(Seq<char>, Seq<u32>)>,
    name: Seq<char>,
    i: int,
    j: int,
    k: int,
)
    requires
        0 <= i <= graph.input@.len(),
        0 <= j <= graph.initializer@.len(),
        0 <= k <= weights.len(),
        forall|x: int| 0 <= x < i ==> (#[trigger] graph.input@[x]).name@ != name,
        i < graph.input@.len() ==> graph.input@[i].name@ == name,
        forall|x: int| 0 <= x < j ==> (#[trigger] graph.initializer@[x]).name@ != name,
        j < graph.initializer@.len() ==> graph.initializer@[j].name@ == name,
        forall|x: int| 0 <= x < k ==> (#[trigger] weights[x]).0 != name,
        k < weights.len() ==> weights[k].0 == name && weights[k].1.len() <= usize::MAX,
        element_count(graph, weights, name) is Some,
    ensures
        element_count(graph, weights, name)->0 == if i < graph.input@.len() {
            product(shape_of(graph.input@[i]))
        } else if j < graph.initializer@.len() {
            product(tensor_sizes(graph.initializer@[j]))
        } else if k < weights.len() {
            weights[k].1.len()
        } else {
            0
        },
{
    lemma_input_at(graph.input@, name, 0, i);
    lemma_initializer_at(graph.initializer@, name, 0, j);
    lemma_first_data(weights, name, 0, k);
    if i < graph.input@.len() {
        lemma_bounded_product(shape_of(graph.input@[i]));
    } else if j < graph.initializer@.len() {
        lemma_bounded_product(tensor_sizes(graph.initializer@[j]));
    }
}

/// A tensor that gets zeros gets as many as it has elements, if no later one is of the
/// same node; a node that none of the tensors is of keeps its data.
pub proof fn law_zeros(
    graph: GraphDef,
    weights: Seq<(Seq<char>, Seq<u32>)>,
    tensors: Map<Seq<char>, Handle>,
    names: Seq<Seq<char>>,
    buffers: Map<usize, Seq<u32>>,
    n: nat,
    id: usize,
    i: int,
)
    requires
        n <= names.len(),
        -1 <= i < n,
        forall|j: int|
            i < j < n && tensors.contains_key(#[trigger] names[j]) ==> tensors[names[j]].id as usize
                != id,
        i >= 0 ==> tensors.contains_key(names[i]) && tensors[names[i]].id as usize == id
            && element_count(graph, weights, names[i])->0 > 0,
    ensures
        ({
            let after = with_zeros(graph, weights, tensors, names, buffers, n);
            if i >= 0 {
                let count = element_count(graph, weights, names[i])->0;
                &&& after.contains_key(id)
                &&& after[id].len() == count
                &&& forall|p: int| 0 <= p < count ==> #[trigger] after[id][p] == 0
            } else {
                &&& after.contains_key(id) == buffers.contains_key(id)
                &&& after[id] == buffers[id]
            }
        }),
    decreases n,
{
    if i < n - 1 {
        law_zeros(graph, weights, tensors, names, buffers, (n - 1) as nat, id, i);
        assert(tensors.contains_key(names[n - 1]) ==> tensors[names[n - 1]].id as usize != id);
    }
}

/// Whether initializer `j` gives a node data: its own, or with rows and columns
/// exchanged.
pub open spec fn gives_node(
    graph: GraphDef,
    tensors: Map<Seq<char>, Handle>,
    flip: bool,
    j: int,
    id: usize,
) -> bool {
    let t = graph.initializer@[j];
    ||| tensors.contains_key(t.name@) && tensors[t.name@].id as usize == id
    ||| flip && t.dims@.len() == 2 && tensors.contains_key(t.name@ + "_kn"@) && tensors[t.name@
        + "_kn"@].id as usize == id
}

/// The node of an initializer gets its elements, if no later one gives it data; and the
/// node of the tensor with rows and columns exchanged gets, in row `c` and column `r`,
/// the element in row `r` and column `c`. A node that no initializer gives data keeps
/// what it had.
pub proof fn law_initializers_are_given(
    graph: GraphDef,
    stored: Seq<Option<Vec<u8>>>,
    tensors: Map<Seq<char>, Handle>,
    flip: bool,
    buffers: Map<usize, Seq<u32>>,
    n: nat,
    id: usize,
    i: int,
    r: int,
    c: int,
)
    requires
        n <= graph.initializer@.len(),
        -1 <= i < n,
        forall|j: int| i < j < n ==> !#[trigger] gives_node(graph, tensors, flip, j, id),
        i >= 0 ==> initializer_floats(graph, stored, i) is Some,
        i >= 0 ==> gives_node(graph, tensors, flip, i, id),
        i >= 0 ==> can_flip(graph, stored, tensors, i),
    ensures
        ({
            let after = with_initializers(graph, stored, tensors, flip, buffers, n);
            let t = graph.initializer@[i];
            let v = initializer_floats(graph, stored, i)->0;
            if i < 0 {
                &&& after.contains_key(id) == buffers.contains_key(id)
                &&& after[id] == buffers[id]
            } else if flip && t.dims@.len() == 2 && tensors.contains_key(t.name@ + "_kn"@)
                && tensors[t.name@ + "_kn"@].id as usize == id {
                let rows = t.dims@[0] as usize;
                let columns = t.dims@[1] as usize;
                &&& after.contains_key(id)
                &&& after[id].len() == rows * columns
                &&& 0 <= r < rows && 0 <= c < columns ==> after[id][c * rows + r] == v[r * columns
                    + c]
            } else {
                after.contains_key(id) && after[id] == v
            }
        }),
    decreases n,
{
    if i < n - 1 {
        law_initializers_are_given(
            graph,
            stored,
            tensors,
            flip,
            buffers,
            (n - 1) as nat,
            id,
            i,
            r,
            c,
        );
        assert(!gives_node(graph, tensors, flip, n - 1, id));
    } else if i >= 0 {
        let t = graph.initializer@[i];
        let v = initializer_floats(graph, stored, i)->0;
        if flip && has_flipped(graph, tensors, i) {
            let rows = t.dims@[0] as usize;
            let columns = t.dims@[1] as usize;
            assert(rows * columns >= 0) by (nonlinear_arith)
                requires
                    rows >= 0,
                    columns >= 0,
            ;
            if 0 <= r < rows && 0 <= c < columns {
                law_transposed_element(v, rows as int, columns as int, r, c);
            }
        }
    }
}

/// The data of an initializer follows that of those before it, under its name, and
/// behind it under its name with `_kn` the same data with rows and columns exchanged, if
/// there is a tensor for that. What was there before stays.
pub proof fn law_data_of_initializers(
    graph: GraphDef,
    stored: Seq<Option<Vec<u8>>>,
    tensors: Map<Seq<char>, Handle>,
    weights: Seq<(Seq<char>, Seq<u32>)>,
    n: nat,
    i: int,
    r: int,
    c: int,
)
    requires
        0 <= i < n <= graph.initializer@.len(),
        can_flip(graph, stored, tensors, i),
    ensures
        ({
            let t = graph.initializer@[i];
            let v = initializer_floats(graph, stored, i);
            let before = initializer_data(graph, stored, tensors, weights, i as nat);
            let next = initializer_data(graph, stored, tensors, weights, (i + 1) as nat);
            let all = initializer_data(graph, stored, tensors, weights, n);
            let at = before.len() as int;
            &&& initializer_data(graph, stored, tensors, weights, 0) == weights
            &&& before.is_prefix_of(all)
            &&& v is None ==> next == before
            &&& v is Some ==> {
                &&& at < all.len()
                &&& all[at] == (t.name@, v->0)
                &&& if t.dims@.len() == 2 && tensors.contains_key(t.name@ + "_kn"@) {
                    let rows = t.dims@[0] as usize;
                    let columns = t.dims@[1] as usize;
                    &&& next.len() == at + 2
                    &&& at + 1 < all.len()
                    &&& all[at + 1].0 == t.name@ + "_kn"@
                    &&& all[at + 1].1.len() == rows * columns
                    &&& 0 <= r < rows && 0 <= c < columns ==> all[at + 1].1[c * rows + r]
                        == v->0[r * columns + c]
                } else {
                    next.len() == at + 1
                }
            }
        }),
    decreases n,
{
    if i < n - 1 {
        law_data_of_initializers(
            graph,
            stored,
            tensors,
            weights,
            (n - 1) as nat,
            i,
            r,
            c,
        );
    } else {
        let t = graph.initializer@[i];
        if initializer_floats(graph, stored, i) is Some && has_flipped(graph, tensors, i) {
            let v = initializer_floats(graph, stored, i)->0;
            let rows = t.dims@[0] as usize;
            let columns = t.dims@[1] as usize;
            assert(rows * columns >= 0) by (nonlinear_arith)
                requires
                    rows >= 0,
                    columns >= 0,
            ;
            if 0 <= r < rows && 0 <= c < columns {
                law_transposed_element(v, rows as int, columns as int, r, c);
            }
        }
    }
}

/// Where data whose name ends in `_kn` is left out, a node that only such data is of
/// keeps what it had.
pub proof fn law_exchanged_data_is_left_out(
    weights: Seq<(Seq<char>, Seq<u32>)>,
    tensors: Map<Seq<char>, Handle>,
    buffers: Map<usize, Seq<u32>>,
    n: nat,
    id: usize,
)
    requires
        n <= weights.len(),
        forall|j: int|
            0 <= j < n && tensors.contains_key((#[trigger] weights[j]).0)
                && tensors[weights[j].0].id as usize == id ==> ends_in(weights[j].0, "_kn"@),
    ensures
        with_weights(weights, tensors, true, buffers, n).contains_key(id) == buffers.contains_key(
            id,
        ),
        with_weights(weights, tensors, true, buffers, n)[id] == buffers[id],
    decreases n,
{
    if n > 0 {
        law_exchanged_data_is_left_out(weights, tensors, buffers, (n - 1) as nat, id);
        assert(weights[n - 1].0.len() >= 0);
    }
}

/// The data that is left out is listed with its nodes, each behind those that come
/// before it, and other data is not.
pub proof fn law_exchanged_data_is_listed(
    weights: Seq<(Seq<char>, Seq<u32>)>,
    tensors: Map<Seq<char>, Handle>,
    n: nat,
    i: int,
)
    requires
        0 <= i < n <= weights.len(),
    ensures
        ({
            let (name, v) = weights[i];
            let before = exchanged_data(weights, tensors, i as nat);
            let next = exchanged_data(weights, tensors, (i + 1) as nat);
            let all = exchanged_data(weights, tensors, n);
            &&& exchanged_data(weights, tensors, 0).len() == 0
            &&& !(tensors.contains_key(name) && ends_in(name, "_kn"@)) ==> next == before
            &&& tensors.contains_key(name) && ends_in(name, "_kn"@) ==> {
                &&& next.len() == before.len() + 1
                &&& before.len() < all.len()
                &&& all[before.len() as int] == (tensors[name].id as usize, v)
            }
        }),
    decreases n,
{
    if i < n - 1 {
        law_exchanged_data_is_listed(weights, tensors, (n - 1) as nat, i);
    }
}

/// The node of a named tensor is given the last data of the node. A graph that does not
/// run on a graphics processor leaves out data whose name ends in `_kn`.
pub proof fn law_nodes_are_given_their_data(
    graph: GraphDef,
    stored: Seq<Option<Vec<u8>>>,
    names: Seq<Seq<char>>,
    tensors: Map<Seq<char>, Handle>,
    weights: Seq<(Seq<char>, Seq<u32>)>,
    cuda: bool,
    i: int,
)
    requires
        0 <= i < weights.len(),
        tensors.contains_key(weights[i].0),
        cuda || !ends_in(weights[i].0, "_kn"@),
        forall|j: int|
            i < j < weights.len() && tensors.contains_key((#[trigger] weights[j]).0)
                ==> tensors[weights[j].0].id as usize != tensors[weights[i].0].id as usize,
    ensures
        ({
            let id = tensors[weights[i].0].id as usize;
            let given = fed(graph, stored, names, tensors, weights, cuda);
            given.contains_key(id) && given[id] == weights[i].1
        }),
{
    let zeroed = zeroed_names(graph, names, cuda);
    let zeros = with_zeros(graph, weights, tensors, zeroed, Map::empty(), zeroed.len());
    let initialized = with_initializers(
        graph,
        stored,
        tensors,
        cuda,
        zeros,
        graph.initializer@.len(),
    );
    law_last_data_is_bound(weights, tensors, !cuda, initialized, i, weights.len());
}

proof fn lemma_node_data(
    weights: Seq<(Seq<char>, Seq<u32>)>,
    tensors: Map<Seq<char>, Handle>,
    id: nat,
    from: int,
    i: int,
)
    requires
        0 <= from <= i < weights.len(),
        forall|j: int|
            0 <= j < i && tensors.contains_key((#[trigger] weights[j]).0)
                ==> tensors[weights[j].0].id != id,
        tensors.contains_key(weights[i].0),
        tensors[weights[i].0].id == id,
    ensures
        node_data(weights, tensors, id, from) == Some(weights[i].1),
    decreases i - from,
{
    if from < i {
        assert(tensors.contains_key(weights[from].0) ==> tensors[weights[from].0].id != id);
        lemma_node_data(weights, tensors, id, from + 1, i);
    }
}

/// A matrix with rows and columns exchanged that has no data of its own gets that of the
/// first tensor of the node of the matrix, with rows and columns exchanged.
pub proof fn law_exchanged_matrix_gets_data(
    tensors: Map<Seq<char>, Handle>,
    names: Seq<Seq<char>>,
    weights: Seq<(Seq<char>, Seq<u32>)>,
    n: nat,
    i: int,
    rows: usize,
    columns: usize,
    r: int,
    c: int,
)
    requires
        n < names.len(),
        tensors.contains_key(names[n as int] + "_kn"@),
        tensors[names[n as int] + "_kn"@].shape.dims == seq![
            Dim::Known(columns),
            Dim::Known(rows),
        ],
        ({
            let before = alias_data(tensors, names, weights, n);
            &&& forall|j: int|
                0 <= j < before.len() ==> (#[trigger] before[j]).0 != names[n as int] + "_kn"@
            &&& 0 <= i < before.len()
            &&& tensors.contains_key(before[i].0)
            &&& tensors[before[i].0].id == tensors[names[n as int]].id
            &&& forall|j: int|
                0 <= j < i && tensors.contains_key((#[trigger] before[j]).0)
                    ==> tensors[before[j].0].id != tensors[names[n as int]].id
            &&& rows * columns <= before[i].1.len()
        }),
        0 <= r < rows,
        0 <= c < columns,
    ensures
        ({
            let before = alias_data(tensors, names, weights, n);
            let after = alias_data(tensors, names, weights, n + 1);
            &&& after.drop_last() == before
            &&& after.last().0 == names[n as int] + "_kn"@
            &&& after.last().1.len() == rows * columns
            &&& after.last().1[c * rows + r] == before[i].1[r * columns + c]
        }),
{
    let before = alias_data(tensors, names, weights, n);
    let after = alias_data(tensors, names, weights, n + 1);
    let base = names[n as int];
    lemma_first_data(before, base + "_kn"@, 0, before.len() as int);
    lemma_node_data(before, tensors, tensors[base].id, 0, i);
    law_transposed_element(before[i].1, rows as int, columns as int, r, c);
    assert(rows * columns >= 0) by (nonlinear_arith)
        requires
            rows >= 0,
            columns >= 0,
    ;
    assert(after.drop_last() =~= before);
}

/// An input or an output without a shape, or with a size that is left open, has no
/// sizes; another one has those that the model gives.
pub proof fn law_sizes_of_a_value(value: ValueDef, a: int)
    ensures
        value.shape is None ==> shape_of(value).len() == 0,
        value.shape matches Some(dims) && 0 <= a < dims@.len() && dims@[a] is None ==> shape_of(
            value,
        ).len() == 0,
        value.shape matches Some(dims) && (forall|i: int|
            0 <= i < dims@.len() ==> (#[trigger] dims@[i]) is Some) ==> {
            &&& shape_of(value).len() == value.shape->0@.len()
            &&& 0 <= a < shape_of(value).len() ==> shape_of(value)[a]
                == value.shape->0@[a]->0 as usize
        },
{
}

proof fn lemma_entry(entries: Seq<(String, String)>, key: Seq<char>, from: int, i: int)
    requires
        0 <= from <= i <= entries.len(),
        forall|j: int| 0 <= j < i ==> (#[trigger] entries[j]).0@ != key,
        i < entries.len() ==> entries[i].0@ == key,
    ensures
        entry_value(entries, key, from) == if i < entries.len() {
            Some(entries[i].1@)
        } else {
            None
        },
    decreases i - from,
{
    if from < i {
        assert(entries[from].0@ != key);
        lemma_entry(entries, key, from + 1, i);
    }
}

/// The elements of a tensor lie in a file if it says so and names one: in the file of the
/// first entry `location`, from the number of the first entry `offset` on, or from the
/// beginning, and as many bytes as the first entry `length` says, or up to the end.
pub proof fn law_location_in_a_file(t: TensorDef, i: int, j: int, k: int, offset: u64, length: u64)
    requires
        0 <= i < t.external_data@.len(),
        0 <= j <= t.external_data@.len(),
        0 <= k <= t.external_data@.len(),
        t.data_location == 1,
        forall|x: int| 0 <= x < i ==> (#[trigger] t.external_data@[x]).0@ != "location"@,
        t.external_data@[i].0@ == "location"@,
        forall|x: int| 0 <= x < j ==> (#[trigger] t.external_data@[x]).0@ != "offset"@,
        j < t.external_data@.len() ==> t.external_data@[j].0@ == "offset"@
            && t.external_data@[j].1@ == decimal(offset as int),
        forall|x: int| 0 <= x < k ==> (#[trigger] t.external_data@[x]).0@ != "length"@,
        k < t.external_data@.len() ==> t.external_data@[k].0@ == "length"@
            && t.external_data@[k].1@ == decimal(length as int),
    ensures
        location_of(t) == Some(
            (
                t.external_data@[i].1@,
                if j < t.external_data@.len() {
                    offset
                } else {
                    0
                },
                if k < t.external_data@.len() {
                    Some(length)
                } else {
                    None
                },
            ),
        ),
{
    lemma_entry(t.external_data@, "location"@, 0, i);
    lemma_entry(t.external_data@, "offset"@, 0, j);
    lemma_entry(t.external_data@, "length"@, 0, k);
    law_decimal_read_back(offset);
    law_decimal_read_back(length);
}

/// A tensor whose elements lie in the model, or that names no file, has no place in a
/// file.
pub proof fn law_no_location(t: TensorDef)
    requires
        t.data_location != 1 || forall|x: int|
            0 <= x < t.external_data@.len() ==> (#[trigger] t.external_data@[x]).0@ != "location"@,
    ensures
        location_of(t) is None,
{
    if t.data_location == 1 {
        lemma_entry(t.external_data@, "location"@, 0, t.external_data@.len() as int);
    }
}

/// A text ends in another one if that is what it was put behind.
pub proof fn law_ends(base: Seq<char>, end: Seq<char>, text: Seq<char>)
    ensures
        ends_in(base + end, end),
        ends_in(text, end) ==> text == text.take(text.len() - end.len()) + end,
{
    let both = base + end;
    assert(both.subrange(both.len() - end.len(), both.len() as int) =~= end);
    if ends_in(text, end) {
        assert(text =~= text.take(text.len() - end.len()) + end) by {
            let tail = text.subrange(text.len() - end.len(), text.len() as int);
            assert forall|x: int| 0 <= x < end.len() implies #[trigger] end[x] == text[text.len()
                - end.len() + x] by {
                assert(tail[x] == end[x]);
            }
        }
    }
}

proof fn lemma_has_data(weights: Seq<(Seq<char>, Seq<u32>)>, name: Seq<char>, from: int, i: int)
    requires
        0 <= from <= i < weights.len(),
        weights[i].0 == name,
    ensures
        first_data(weights, name, from) is Some,
    decreases i - from,
{
    if from < i {
        lemma_has_data(weights, name, from + 1, i);
    }
}

proof fn lemma_no_node_data(
    weights: Seq<(Seq<char>, Seq<u32>)>,
    tensors: Map<Seq<char>, Handle>,
    id: nat,
    from: int,
)
    requires
        0 <= from <= weights.len(),
        forall|j: int|
            0 <= j < weights.len() && tensors.contains_key((#[trigger] weights[j]).0)
                ==> tensors[weights[j].0].id != id,
    ensures
        node_data(weights, tensors, id, from) is None,
    decreases weights.len() - from,
{
    if from < weights.len() {
        assert(tensors.contains_key(weights[from].0) ==> tensors[weights[from].0].id != id);
        lemma_no_node_data(weights, tensors, id, from + 1);
    }
}

/// Nothing is added for a name without a tensor with rows and columns exchanged, nor if
/// that has data already or is no matrix, nor if no data is of the node.
pub proof fn law_exchanged_matrix_gets_no_data(
    tensors: Map<Seq<char>, Handle>,
    names: Seq<Seq<char>>,
    weights: Seq<(Seq<char>, Seq<u32>)>,
    n: nat,
    i: int,
)
    requires
        n < names.len(),
        ({
            let before = alias_data(tensors, names, weights, n);
            let name = names[n as int] + "_kn"@;
            ||| !tensors.contains_key(name)
            ||| 0 <= i < before.len() && before[i].0 == name
            ||| tensors[name].shape.dims.len() != 2
            ||| forall|j: int|
                0 <= j < before.len() && tensors.contains_key((#[trigger] before[j]).0)
                    ==> tensors[before[j].0].id != tensors[names[n as int]].id
        }),
    ensures
        alias_data(tensors, names, weights, n + 1) == alias_data(tensors, names, weights, n),
{
    let before = alias_data(tensors, names, weights, n);
    let name = names[n as int] + "_kn"@;
    if 0 <= i < before.len() && before[i].0 == name {
        lemma_has_data(before, name, 0, i);
    }
    if forall|j: int|
        0 <= j < before.len() && tensors.contains_key((#[trigger] before[j]).0)
            ==> tensors[before[j].0].id != tensors[names[n as int]].id {
        lemma_no_node_data(before, tensors, tensors[names[n as int]].id, 0);
    }
}

/// Whether every output that there is a tensor for has sizes.
pub open spec fn outputs_have_sizes(graph: GraphDef, tensors: Map<Seq<char>, Handle>) -> bool {
    forall|i: int|
        0 <= i < graph.output@.len() && tensors.contains_key((#[trigger] graph.output@[i]).name@)
            ==> shape_of(graph.output@[i]).len() > 0
}

proof fn lemma_outputs_done(graph: GraphDef, tensors: Map<Seq<char>, Handle>, n: nat, i: nat)
    requires
        n <= i <= graph.output@.len(),
        forall|j: int|
            0 <= j < i && tensors.contains_key((#[trigger] graph.output@[j]).name@) ==> shape_of(
                graph.output@[j],
            ).len() > 0,
    ensures
        outputs_outcome(graph, tensors, n) is Done,
    decreases n,
{
    if n > 0 {
        lemma_outputs_done(graph, tensors, (n - 1) as nat, i);
        assert(tensors.contains_key(graph.output@[n - 1].name@) ==> shape_of(
            graph.output@[n - 1],
        ).len() > 0);
    }
}

proof fn lemma_outputs_fail(graph: GraphDef, tensors: Map<Seq<char>, Handle>, n: nat, i: nat)
    requires
        i < n <= graph.output@.len(),
        tensors.contains_key(graph.output@[i as int].name@),
        shape_of(graph.output@[i as int]).len() == 0,
        outputs_outcome(graph, tensors, i) is Done,
    ensures
        outputs_outcome(graph, tensors, n) == Outcome::Fails(
            "Output tensor '"@ + graph.output@[i as int].name@
                + "' has no shape information in the ONNX model"@,
        ),
    decreases n,
{
    if i < n - 1 {
        lemma_outputs_fail(graph, tensors, (n - 1) as nat, i);
    }
}

/// A model fails at the first output that there is a tensor for, but no sizes.
pub proof fn law_output_without_sizes(
    graph: GraphDef,
    stored: Seq<Option<Vec<u8>>>,
    cuda: bool,
    names: Seq<Seq<char>>,
    end: State,
    result: Result<OnnxGraphResult, ModelFault>,
    i: nat,
)
    requires
        completed(graph, stored, cuda, names, end, result),
        i < graph.output@.len(),
        end.tensors.contains_key(graph.output@[i as int].name@),
        shape_of(graph.output@[i as int]).len() == 0,
        forall|j: int|
            0 <= j < i && end.tensors.contains_key((#[trigger] graph.output@[j]).name@)
                ==> shape_of(graph.output@[j]).len() > 0,
    ensures
        result matches Err(ModelFault::Output(message)) && message@ == "Output tensor '"@
            + graph.output@[i as int].name@ + "' has no shape information in the ONNX model"@,
{
    lemma_outputs_done(graph, end.tensors, i, i);
    lemma_outputs_fail(graph, end.tensors, graph.output@.len(), i);
}

/// A matrix that is needed with rows and columns exchanged, and has fewer elements than
/// its sizes say, is refused.
pub proof fn law_matrix_with_too_few_elements(
    graph: GraphDef,
    stored: Seq<Option<Vec<u8>>>,
    cuda: bool,
    names: Seq<Seq<char>>,
    end: State,
    result: Result<OnnxGraphResult, ModelFault>,
    i: int,
)
    requires
        completed(graph, stored, cuda, names, end, result),
        outputs_have_sizes(graph, end.tensors),
        0 <= i < graph.initializer@.len(),
        graph.initializer@[i].dims@.len() == 2,
        end.tensors.contains_key(graph.initializer@[i].name@ + "_kn"@),
        initializer_floats(graph, stored, i) is Some,
        (graph.initializer@[i].dims@[0] as usize) * (graph.initializer@[i].dims@[1] as usize)
            > initializer_floats(graph, stored, i)->0.len(),
    ensures
        result matches Err(ModelFault::Rejected),
{
    lemma_outputs_done(graph, end.tensors, graph.output@.len(), graph.output@.len());
    assert(!can_flip(graph, stored, end.tensors, i));
}

/// Whether sizes have representable products, from the first one on.
pub open spec fn is_representable(sizes: Seq<usize>) -> bool {
    forall|n: int|
        0 <= n <= sizes.len() ==> product(#[trigger] sizes.subrange(0, n)) <= usize::MAX
}

/// A number of elements is computed if all products on the way to it are representable.
pub proof fn law_products_are_bounded(sizes: Seq<usize>)
    ensures
        bounded_product(sizes) is Some <==> is_representable(sizes),
        bounded_product(sizes) matches Some(p) ==> p == product(sizes),
    decreases sizes.len(),
{
    lemma_bounded_product(sizes);
    assert(sizes.subrange(0, sizes.len() as int) =~= sizes);
    if sizes.len() > 0 {
        let short = sizes.drop_last();
        law_products_are_bounded(short);
        assert forall|n: int| 0 <= n <= short.len() implies #[trigger] short.subrange(0, n)
            == sizes.subrange(0, n) by {
            assert(short.subrange(0, n) =~= sizes.subrange(0, n));
        }
        if is_representable(sizes) {
            assert forall|n: int| 0 <= n <= short.len() implies product(
                #[trigger] short.subrange(0, n),
            ) <= usize::MAX by {
                assert(short.subrange(0, n) == sizes.subrange(0, n));
            }
            assert(product(sizes) <= usize::MAX);
        } else if bounded_product(sizes) is Some {
            let n = choose|n: int|
                0 <= n <= sizes.len() && product(#[trigger] sizes.subrange(0, n)) > usize::MAX;
            assert(n < sizes.len());
            assert(short.subrange(0, n) == sizes.subrange(0, n));
        }
    } else {
        assert forall|n: int| 0 <= n <= sizes.len() implies product(
            #[trigger] sizes.subrange(0, n),
        ) <= usize::MAX by {
            assert(sizes.subrange(0, n) =~= sizes);
        }
    }
}

proof fn lemma_counted(graph: GraphDef, weights: Seq<(Seq<char>, Seq<u32>)>, name: Seq<char>)
    requires
        forall|i: int|
            0 <= i < graph.input@.len() ==> is_representable(
                shape_of(#[trigger] graph.input@[i]),
            ),
        forall|i: int|
            0 <= i < graph.initializer@.len() ==> is_representable(
                tensor_sizes(#[trigger] graph.initializer@[i]),
            ),
    ensures
        element_count(graph, weights, name) is Some,
{
    lemma_found_input(graph.input@, name, 0);
    lemma_found_initializer(graph.initializer@, name, 0);
    match input_at(graph.input@, name, 0) {
        Some(i) => {
            assert(is_representable(shape_of(graph.input@[i])));
            law_products_are_bounded(shape_of(graph.input@[i]));
        },
        None => match initializer_at(graph.initializer@, name, 0) {
            Some(i) => {
                assert(is_representable(tensor_sizes(graph.initializer@[i])));
                law_products_are_bounded(tensor_sizes(graph.initializer@[i]));
            },
            None => {},
        },
    }
}

proof fn lemma_found_input(inputs: Seq<ValueDef>, name: Seq<char>, from: int)
    requires
        0 <= from <= inputs.len(),
    ensures
        input_at(inputs, name, from) matches Some(i) ==> 0 <= i < inputs.len(),
    decreases inputs.len() - from,
{
    if from < inputs.len() {
        lemma_found_input(inputs, name, from + 1);
    }
}

proof fn lemma_found_initializer(list: Seq<TensorDef>, name: Seq<char>, from: int)
    requires
        0 <= from <= list.len(),
    ensures
        initializer_at(list, name, from) matches Some(i) ==> 0 <= i < list.len(),
    decreases list.len() - from,
{
    if from < list.len() {
        lemma_found_initializer(list, name, from + 1);
    }
}

/// A model whose nodes were imported is complete if the outputs that there are tensors
/// for have sizes, the inputs and the initializers have representable numbers of elements,
/// and no matrix is needed with rows and columns exchanged.
pub proof fn law_model_is_complete(
    graph: GraphDef,
    stored: Seq<Option<Vec<u8>>>,
    cuda: bool,
    names: Seq<Seq<char>>,
    end: State,
    result: Result<OnnxGraphResult, ModelFault>,
)
    requires
        completed(graph, stored, cuda, names, end, result),
        outputs_have_sizes(graph, end.tensors),
        forall|i: int|
            0 <= i < graph.input@.len() ==> is_representable(
                shape_of(#[trigger] graph.input@[i]),
            ),
        forall|i: int|
            0 <= i < graph.initializer@.len() ==> is_representable(
                tensor_sizes(#[trigger] graph.initializer@[i]),
            ),
        forall|base: Seq<char>| !end.tensors.contains_key(#[trigger] (base + "_kn"@)),
    ensures
        result is Ok,
{
    lemma_outputs_done(graph, end.tensors, graph.output@.len(), graph.output@.len());
    assert forall|i: int| 0 <= i < graph.initializer@.len() implies #[trigger] can_flip(
        graph,
        stored,
        end.tensors,
        i,
    ) by {
        assert(!end.tensors.contains_key(graph.initializer@[i].name@ + "_kn"@));
    }
    assert forall|i: int| 0 <= i < names.len() implies !end.tensors.contains_key(
        #[trigger] names[i] + "_kn"@,
    ) by {}
    assert forall|name: Seq<char>| #[trigger] element_count(
        graph,
        all_data(graph, stored, names, end),
        name,
    ) is Some by {
        lemma_counted(graph, all_data(graph, stored, names, end), name);
    }
}

/// A graph that runs on a graphics processor leaves out no data; another one lists what
/// it leaves out.
pub proof fn law_data_is_withheld(
    graph: GraphDef,
    stored: Seq<Option<Vec<u8>>>,
    cuda: bool,
    names: Seq<Seq<char>>,
    end: State,
    r: OnnxGraphResult,
)
    requires
        completed(graph, stored, cuda, names, end, Ok(r)),
    ensures
        cuda ==> r.withheld@.len() == 0,
        !cuda ==> node_list(r.withheld@) == exchanged_data(
            all_data(graph, stored, names, end),
            end.tensors,
            all_data(graph, stored, names, end).len(),
        ),
{
    assert(node_list(r.withheld@).len() == r.withheld@.len());
}

proof fn lemma_weights_of_others(
    weights: Seq<(Seq<char>, Seq<u32>)>,
    tensors: Map<Seq<char>, Handle>,
    skip: bool,
    buffers: Map<usize, Seq<u32>>,
    n: nat,
    id: usize,
)
    requires
        n <= weights.len(),
        forall|j: int|
            0 <= j < n && tensors.contains_key((#[trigger] weights[j]).0)
                ==> tensors[weights[j].0].id as usize != id,
    ensures
        with_weights(weights, tensors, skip, buffers, n).contains_key(id) == buffers.contains_key(
            id,
        ),
        with_weights(weights, tensors, skip, buffers, n)[id] == buffers[id],
    decreases n,
{
    if n > 0 {
        lemma_weights_of_others(weights, tensors, skip, buffers, (n - 1) as nat, id);
        assert(tensors.contains_key(weights[n - 1].0) ==> tensors[weights[n - 1].0].id as usize
            != id);
    }
}

proof fn lemma_last_of(names: Seq<Seq<char>>, name: Seq<char>, n: nat) -> (i: int)
    requires
        n <= names.len(),
        exists|k: int| 0 <= k < n && names[k] == name,
    ensures
        0 <= i < n,
        names[i] == name,
        forall|j: int| i < j < n ==> #[trigger] names[j] != name,
    decreases n,
{
    if names[n - 1] == name {
        n - 1
    } else {
        lemma_last_of(names, name, (n - 1) as nat)
    }
}

/// An input of the model is given as many zeros as its sizes say, if it has a node of its
/// own and no data. A tensor that is no input is given nothing without a graphics
/// processor, if it has a node of its own and no data.
pub proof fn law_inputs_are_zeros(
    graph: GraphDef,
    stored: Seq<Option<Vec<u8>>>,
    cuda: bool,
    names: Seq<Seq<char>>,
    end: State,
    r: OnnxGraphResult,
    name: Seq<char>,
    k: int,
)
    requires
        completed(graph, stored, cuda, names, end, Ok(r)),
        names.to_set() == end.tensors.dom(),
        end.tensors.contains_key(name),
        forall|other: Seq<char>| #[trigger]
            end.tensors.contains_key(other) && other != name ==> end.tensors[other].id as usize
                != end.tensors[name].id as usize,
        forall|j: int|
            0 <= j < all_data(graph, stored, names, end).len() ==> (#[trigger] all_data(
                graph,
                stored,
                names,
                end,
            )[j]).0 != name,
        !names_initializer(graph, name),
        !ends_in(name, "_kn"@),
        0 <= k <= graph.input@.len(),
        forall|j: int| 0 <= j < k ==> (#[trigger] graph.input@[j]).name@ != name,
        k < graph.input@.len() ==> graph.input@[k].name@ == name && 0 < product(
            shape_of(graph.input@[k]),
        ) <= usize::MAX,
    ensures
        ({
            let id = end.tensors[name].id as usize;
            &&& k < graph.input@.len() ==> {
                &&& r.runtime@.contains_key(id)
                &&& r.runtime@[id].len() == product(shape_of(graph.input@[k]))
                &&& forall|p: int| 0 <= p < r.runtime@[id].len() ==> #[trigger] r.runtime@[id][p]
                    == 0
            }
            &&& k == graph.input@.len() && !cuda ==> !r.runtime@.contains_key(id)
        }),
{
    let id = end.tensors[name].id as usize;
    let weights = all_data(graph, stored, names, end);
    let zeroed = zeroed_names(graph, names, cuda);
    let count = graph.initializer@.len();
    let zeros = with_zeros(graph, weights, end.tensors, zeroed, Map::empty(), zeroed.len());
    let initialized = with_initializers(graph, stored, end.tensors, cuda, zeros, count);
    lemma_weights_of_others(weights, end.tensors, !cuda, initialized, weights.len(), id);
    assert forall|j: int| 0 <= j < count implies !#[trigger] gives_node(
        graph,
        end.tensors,
        cuda,
        j,
        id,
    ) by {
        let own = graph.initializer@[j].name@;
        assert(own != name);
        law_ends(own, "_kn"@, name);
        assert(own + "_kn"@ != name);
    }
    law_initializers_are_given(graph, stored, end.tensors, cuda, zeros, count, id, -1, 0, 0);
    if k < graph.input@.len() {
        let inputs = graph.input@.len();
        if cuda {
            assert(names.to_set().contains(name));
        } else {
            law_inputs_are_listed(graph, inputs, k);
            assert(zeroed[model_inputs(graph, k as nat).len() as int] == name);
        }
        let i = lemma_last_of(zeroed, name, zeroed.len());
        lemma_input_at(graph.input@, name, 0, k);
        lemma_bounded_product(shape_of(graph.input@[k]));
        law_zeros(
            graph,
            weights,
            end.tensors,
            zeroed,
            Map::empty(),
            zeroed.len(),
            id,
            i,
        );
    } else if !cuda {
        assert forall|j: int| 0 <= j < zeroed.len() implies #[trigger] zeroed[j] != name by {
            lemma_listed(graph, graph.input@.len(), j);
        }
        law_zeros(
            graph,
            weights,
            end.tensors,
            zeroed,
            Map::empty(),
            zeroed.len(),
            id,
            -1,
        );
    }
}

proof fn lemma_listed(graph: GraphDef, n: nat, j: int)
    requires
        n <= graph.input@.len(),
        0 <= j < model_inputs(graph, n).len(),
    ensures
        exists|i: int|
            0 <= i < n && model_inputs(graph, n)[j] == (#[trigger] graph.input@[i]).name@,
    decreases n,
{
    if n > 0 {
        if j < model_inputs(graph, (n - 1) as nat).len() {
            lemma_listed(graph, (n - 1) as nat, j);
        } else {
            assert(model_inputs(graph, n)[j] == graph.input@[n - 1].name@);
        }
    }
}

/// A model ends as its nodes do if one of them fails or is refused, with the message of
/// the node. A model with an initializer whose number of elements is not representable is
/// refused.
pub proof fn law_model_ends_at_a_node<M: FloatMath>(
    math: M,
    graph: GraphDef,
    stored: Seq<Option<Vec<u8>>>,
    cuda: bool,
    begin: State,
    end: State,
    names: Seq<Seq<char>>,
    nodes: Outcome,
    result: Result<OnnxGraphResult, ModelFault>,
    i: int,
)
    ensures
        imported(math, graph, stored, cuda, begin, end, names, nodes, result) ==> {
            &&& nodes matches Outcome::Fails(text) ==> result matches Err(ModelFault::Node(message))
                && message@ == text
            &&& nodes is Rejects ==> result matches Err(ModelFault::Rejected)
        },
        model_step(math, graph, stored, cuda, result) && 0 <= i < graph.initializer@.len()
            && !is_representable(tensor_sizes(graph.initializer@[i])) ==> result matches Err(
            ModelFault::Rejected,
        ),
{
    if 0 <= i < graph.initializer@.len() {
        law_products_are_bounded(tensor_sizes(graph.initializer@[i]));
    }
}

} // verus!
