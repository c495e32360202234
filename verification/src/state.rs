//! What is known while a graph is built: the tensors by name, the data of the
//! named ones, and the values that can already be told.

use crate::graph::{group_graph, grows, ComputeGraph, GraphTensor};
#[allow(unused_imports)]
use crate::graph::{load, Handle, Tensor};
use crate::names::{join, NameMap};
use crate::proto::copy_bits;
use crate::shape::Dim;
use vstd::pervasive::unreached;
use vstd::prelude::*;

verus! {

broadcast use group_graph;

/// Why a node is not imported.
#[derive(Debug)]
pub enum Fault {
    /// The model lacks something that the node needs.
    Error(String),
    /// The node is not one that its operation admits; nothing is promised of
    /// the tensors and values that were being built.
    Rejected,
}

/// How the import of a node ends.
#[verifier::ext_equal]
pub enum Outcome {
    Done,
    Fails(Seq<char>),
    Rejects,
}

/// How an import ended.
pub open spec fn outcome(result: Result<(), Fault>) -> Outcome {
    match result {
        Ok(()) => Outcome::Done,
        Err(Fault::Error(message)) => Outcome::Fails(message@),
        Err(Fault::Rejected) => Outcome::Rejects,
    }
}

/// How an import ended that can only fail with a message.
pub open spec fn ending(result: Result<(), String>) -> Outcome {
    match result {
        Ok(()) => Outcome::Done,
        Err(message) => Outcome::Fails(message@),
    }
}

/// The result of an import of a node that its operation admits.
pub(crate) fn settle(result: Result<(), Fault>) -> (settled: Result<(), String>)
    requires
        !(outcome(result) is Rejects),
    ensures
        ending(settled) == outcome(result),
{
    match result {
        Ok(()) => Ok(()),
        Err(Fault::Error(message)) => Err(message),
        Err(Fault::Rejected) => unreached(),
    }
}

/// The nodes of the named tensors.
pub open spec fn handles(tensors: NameMap<GraphTensor>) -> Map<Seq<char>, Handle> {
    tensors@.map_values(|tensor: GraphTensor| tensor@)
}

/// What the named tensors stand for.
pub open spec fn env(tensors: NameMap<GraphTensor>, cx: ComputeGraph) -> Map<Seq<char>, Tensor> {
    tensors@.map_values(|tensor: GraphTensor| cx.meaning(tensor@))
}

/// The known values by name.
pub open spec fn values(known: NameMap<Vec<u32>>) -> Map<Seq<char>, Seq<u32>> {
    known@.map_values(|v: Vec<u32>| v@)
}

/// The data of the named tensors, in the order in which it was given.
pub open spec fn data(weights: Vec<(String, Vec<u32>)>) -> Seq<(Seq<char>, Seq<u32>)> {
    weights@.map_values(|entry: (String, Vec<u32>)| (entry.0@, entry.1@))
}

/// The graph has the nodes of all named tensors, and each node after those that
/// go into it.
pub open spec fn valid(tensors: NameMap<GraphTensor>, cx: ComputeGraph) -> bool {
    &&& tensors.wf()
    &&& cx.wf()
    &&& forall|name: Seq<char>| #[trigger]
        tensors@.contains_key(name) ==> cx.holds(tensors@[name]@)
}

/// What is known at some point of an import.
#[verifier::ext_equal]
pub struct State {
    /// The graph that is being built.
    pub graph: ComputeGraph,
    /// The nodes of the named tensors.
    pub tensors: Map<Seq<char>, Handle>,
    /// What the named tensors stand for.
    pub env: Map<Seq<char>, Tensor>,
    /// The data of the named tensors, in the order in which it was given.
    pub weights: Seq<(Seq<char>, Seq<u32>)>,
    /// The known values by name.
    pub known: Map<Seq<char>, Seq<u32>>,
}

/// What is known with the given tensors, data and values.
pub open spec fn state(
    tensors: NameMap<GraphTensor>,
    cx: ComputeGraph,
    weights: Seq<(Seq<char>, Seq<u32>)>,
    known: Map<Seq<char>, Seq<u32>>,
) -> State {
    State { graph: cx, tensors: handles(tensors), env: env(tensors, cx), weights, known }
}

/// The graph has the node of each named tensor, and the tensor stands for what
/// the graph says.
pub open spec fn is_coherent(s: State) -> bool {
    &&& s.graph.wf()
    &&& s.tensors.dom() == s.env.dom()
    &&& forall|name: Seq<char>| #[trigger]
        s.tensors.contains_key(name) ==> {
            &&& s.graph.holds(s.tensors[name])
            &&& s.graph.meaning(s.tensors[name]) == s.env[name]
        }
}

/// What is known with valid tensors is coherent.
pub proof fn lemma_coherent(
    tensors: NameMap<GraphTensor>,
    cx: ComputeGraph,
    weights: Seq<(Seq<char>, Seq<u32>)>,
    known: Map<Seq<char>, Seq<u32>>,
)
    requires
        valid(tensors, cx),
    ensures
        is_coherent(state(tensors, cx, weights, known)),
{
    let s = state(tensors, cx, weights, known);
    assert(s.tensors.dom() =~= s.env.dom());
    assert forall|name: Seq<char>| #[trigger] s.tensors.contains_key(name) implies {
        &&& s.graph.holds(s.tensors[name])
        &&& s.graph.meaning(s.tensors[name]) == s.env[name]
    } by {
        assert(tensors@.contains_key(name));
    }
}

/// `after` differs from `before` at most in the values of `names`, all of
/// which it has.
pub open spec fn changed<V>(
    before: Map<Seq<char>, V>,
    after: Map<Seq<char>, V>,
    names: Set<Seq<char>>,
) -> bool {
    &&& forall|name: Seq<char>| #[trigger]
        after.contains_key(name) <==> before.contains_key(name) || names.contains(name)
    &&& forall|name: Seq<char>|
        before.contains_key(name) && !names.contains(name) ==> #[trigger] after[name]
            == before[name]
}

/// The named tensors stand for the same when the graph grows.
pub broadcast proof fn lemma_env_kept(tensors: NameMap<GraphTensor>, a: ComputeGraph, b: ComputeGraph)
    requires
        #[trigger] grows(a, b),
        valid(tensors, a),
    ensures
        #[trigger] env(tensors, b) == env(tensors, a),
{
    assert(env(tensors, b) =~= env(tensors, a));
}

/// The named tensors stay in the graph when it grows.
pub broadcast proof fn lemma_valid_kept(tensors: NameMap<GraphTensor>, a: ComputeGraph, b: ComputeGraph)
    requires
        #[trigger] grows(a, b),
        valid(tensors, a),
    ensures
        #[trigger] valid(tensors, b),
{
    assert forall|name: Seq<char>| #[trigger] tensors@.contains_key(name) implies b.holds(
        tensors@[name]@,
    ) by {
        assert(a.holds(tensors@[name]@));
        assert(b.meaning(tensors@[name]@) == a.meaning(tensors@[name]@));
    }
}

pub broadcast group group_state {
    lemma_env_kept,
    lemma_valid_kept,
}

/// A message that ends in the name of what is missing.
pub open spec fn missing(prefix: Seq<char>, name: Seq<char>) -> Seq<char> {
    prefix + name + "'"@
}

/// A message that ends in the name of what is missing.
pub(crate) fn missing_error(prefix: &str, name: &str) -> (fault: Fault)
    ensures
        fault matches Fault::Error(message) && message@ == missing(prefix@, name@),
{
    Fault::Error(join(prefix, name, "'"))
}

/// The tensor of the given name.
pub(crate) fn fetch(tensors: &NameMap<GraphTensor>, name: &String, prefix: &str) -> (found: Result<
    GraphTensor,
    Fault,
>)
    ensures
        match found {
            Ok(tensor) => tensors@.contains_key(name@) && tensor@ == tensors@[name@]@,
            Err(Fault::Error(message)) => !tensors@.contains_key(name@) && message@ == missing(
                prefix@,
                name@,
            ),
            Err(Fault::Rejected) => false,
        },
{
    match tensors.get(name.as_str()) {
        Some(tensor) => Ok(tensor.copy()),
        None => Err(missing_error(prefix, name.as_str())),
    }
}

/// Gives a tensor a name.
pub(crate) fn bind(tensors: &mut NameMap<GraphTensor>, cx: &ComputeGraph, name: &str, tensor: GraphTensor)
    requires
        valid(*old(tensors), *cx),
        cx.holds(tensor@),
    ensures
        valid(*final(tensors), *cx),
        env(*final(tensors), *cx) == env(*old(tensors), *cx).insert(
            name@,
            cx.meaning(tensor@),
        ),
        handles(*final(tensors)) == handles(*old(tensors)).insert(name@, tensor@),
        final(tensors)@ == old(tensors)@.insert(name@, tensor),
{
    tensors.insert(name, tensor);
    assert(env(*tensors, *cx) =~= env(*old(tensors), *cx).insert(name@, cx.meaning(tensor@)));
    assert(handles(*tensors) =~= handles(*old(tensors)).insert(name@, tensor@));
}

/// The values of the given name, if they are known.
pub(crate) fn recall(known: &NameMap<Vec<u32>>, name: &String) -> (found: Option<Vec<u32>>)
    ensures
        match found {
            Some(v) => values(*known).contains_key(name@) && v@ == values(*known)[name@],
            None => !values(*known).contains_key(name@),
        },
{
    match known.get(name.as_str()) {
        Some(v) => Some(copy_bits(v)),
        None => None,
    }
}

/// Makes values known under a name.
pub(crate) fn remember(known: &mut NameMap<Vec<u32>>, name: &str, v: Vec<u32>)
    ensures
        values(*final(known)) == values(*old(known)).insert(name@, v@),
{
    known.insert(name, v);
    assert(values(*known) =~= values(*old(known)).insert(name@, v@));
}

/// Adds the data of a named tensor.
pub(crate) fn supply(weights: &mut Vec<(String, Vec<u32>)>, name: &str, v: Vec<u32>)
    ensures
        data(*final(weights)) == data(*old(weights)).push((name@, v@)),
{
    weights.push((String::from_str(name), v));
    assert(data(*weights) =~= data(*old(weights)).push((name@, v@)));
}

/// The tensor of one element that is given under the name `name`.
pub open spec fn number(name: Seq<char>) -> Tensor {
    load(name, seq![Dim::Known(1)])
}

/// A named tensor of one element, with the element as its data.
pub(crate) fn name_number(
    tensors: &mut NameMap<GraphTensor>,
    cx: &mut ComputeGraph,
    weights: &mut Vec<(String, Vec<u32>)>,
    name: &str,
    bits: u32,
) -> (tensor: GraphTensor)
    requires
        valid(*old(tensors), *old(cx)),
    ensures
        valid(*final(tensors), *final(cx)),
        grows(*old(cx), *final(cx)),
        final(cx).holds(tensor@),
        final(cx).meaning(tensor@) == number(name@),
        env(*final(tensors), *final(cx)) == env(*old(tensors), *old(cx)).insert(
            name@,
            number(name@),
        ),
        handles(*final(tensors)) == handles(*old(tensors)).insert(name@, tensor@),
        data(*final(weights)) == data(*old(weights)).push((name@, seq![bits])),
{
    broadcast use group_state;

    let mut dims: Vec<Dim> = Vec::new();
    dims.push(Dim::Known(1));
    assert(dims@ =~= seq![Dim::Known(1usize)]);
    let tensor = cx.named_tensor(name, dims);
    bind(tensors, cx, name, tensor.copy());
    let mut v: Vec<u32> = Vec::new();
    v.push(bits);
    assert(v@ =~= seq![bits]);
    supply(weights, name, v);
    tensor
}

/// The named tensors with those of one element that belong to the output `out`
/// added, one for each of `numbers`, whose names end in the first components.
pub open spec fn with_numbers(
    named: Map<Seq<char>, Tensor>,
    out: Seq<char>,
    numbers: Seq<(Seq<char>, u32)>,
) -> Map<Seq<char>, Tensor>
    decreases numbers.len(),
{
    if numbers.len() == 0 {
        named
    } else {
        let name = out + numbers.last().0;
        with_numbers(named, out, numbers.drop_last()).insert(name, number(name))
    }
}

/// The data of the tensors of one element that belong to the output `out`.
pub open spec fn number_data(out: Seq<char>, numbers: Seq<(Seq<char>, u32)>) -> Seq<
    (Seq<char>, Seq<u32>),
> {
    Seq::new(numbers.len(), |i: int| (out + numbers[i].0, seq![numbers[i].1]))
}

/// The names of the tensors of one element that belong to the output `out`.
pub open spec fn number_names(out: Seq<char>, numbers: Seq<(Seq<char>, u32)>) -> Set<Seq<char>>
    decreases numbers.len(),
{
    if numbers.len() == 0 {
        Set::empty()
    } else {
        number_names(out, numbers.drop_last()).insert(out + numbers.last().0)
    }
}

/// The ends of the names and the bits of some numbers.
pub open spec fn number_list(numbers: Seq<(&str, u32)>) -> Seq<(Seq<char>, u32)> {
    Seq::new(numbers.len(), |i: int| (numbers[i].0@, numbers[i].1))
}

/// Named tensors of one element that belong to the output `out`.
pub(crate) fn name_numbers(
    tensors: &mut NameMap<GraphTensor>,
    cx: &mut ComputeGraph,
    weights: &mut Vec<(String, Vec<u32>)>,
    out: &str,
    numbers: &Vec<(&str, u32)>,
) -> (named: Vec<GraphTensor>)
    requires
        valid(*old(tensors), *old(cx)),
    ensures
        valid(*final(tensors), *final(cx)),
        grows(*old(cx), *final(cx)),
        named@.len() == numbers@.len(),
        forall|i: int|
            0 <= i < numbers@.len() ==> {
                &&& final(cx).holds((#[trigger] named@[i])@)
                &&& final(cx).meaning(named@[i]@) == number(out@ + numbers@[i].0@)
            },
        env(*final(tensors), *final(cx)) == with_numbers(
            env(*old(tensors), *old(cx)),
            out@,
            number_list(numbers@),
        ),
        changed(
            handles(*old(tensors)),
            handles(*final(tensors)),
            number_names(out@, number_list(numbers@)),
        ),
        data(*final(weights)) == data(*old(weights)) + number_data(out@, number_list(numbers@)),
{
    broadcast use group_state;

    let ghost list = number_list(numbers@);
    let mut named: Vec<GraphTensor> = Vec::new();
    let mut i: usize = 0;
    assert(list.subrange(0, 0) =~= Seq::empty());
    assert(data(*weights) =~= data(*old(weights)) + number_data(out@, list.subrange(0, 0)));
    while i < numbers.len()
        invariant
            i <= numbers.len(),
            list == number_list(numbers@),
            valid(*old(tensors), *old(cx)),
            valid(*tensors, *cx),
            grows(*old(cx), *cx),
            named@.len() == i,
            forall|k: int|
                0 <= k < i ==> cx.holds((#[trigger] named@[k])@) && cx.meaning(named@[k]@)
                    == number(out@ + numbers@[k].0@),
            env(*tensors, *cx) == with_numbers(
                env(*old(tensors), *old(cx)),
                out@,
                list.subrange(0, i as int),
            ),
            changed(
                handles(*old(tensors)),
                handles(*tensors),
                number_names(out@, list.subrange(0, i as int)),
            ),
            data(*weights) == data(*old(weights)) + number_data(
                out@,
                list.subrange(0, i as int),
            ),
        decreases numbers.len() - i,
    {
        let (end, bits) = numbers[i];
        let name = join(out, end, "");
        proof {
            reveal_strlit("");
            assert(name@ =~= out@ + list[i as int].0);
            assert(list.subrange(0, i + 1).drop_last() =~= list.subrange(0, i as int));
            assert(number_data(out@, list.subrange(0, i + 1)) =~= number_data(
                out@,
                list.subrange(0, i as int),
            ).push((name@, seq![bits])));
        }
        let ghost before = *cx;
        let ghost listed = named@;
        let ghost pushed = data(*weights);
        named.push(name_number(tensors, cx, weights, name.as_str(), bits));
        assert(data(*weights) =~= data(*old(weights)) + number_data(
            out@,
            list.subrange(0, i + 1),
        ));
        assert forall|k: int| 0 <= k <= i implies cx.holds((#[trigger] named@[k])@) && cx.meaning(
            named@[k]@,
        ) == number(out@ + numbers@[k].0@) by {
            if k < i {
                assert(before.holds(listed[k]@));
            }
        }
        i = i + 1;
    }
    assert(list.subrange(0, list.len() as int) =~= list);
    named
}

/// Numbers that get names take no name away.
pub broadcast proof fn lemma_numbers_keep_names(
    named: Map<Seq<char>, Tensor>,
    out: Seq<char>,
    numbers: Seq<(Seq<char>, u32)>,
    name: Seq<char>,
)
    requires
        named.contains_key(name),
    ensures
        #[trigger] with_numbers(named, out, numbers).contains_key(name),
    decreases numbers.len(),
{
    if numbers.len() > 0 {
        lemma_numbers_keep_names(named, out, numbers.drop_last(), name);
    }
}

/// Numbers that get data get names.
pub broadcast proof fn lemma_numbers_are_named(
    named: Map<Seq<char>, Tensor>,
    out: Seq<char>,
    numbers: Seq<(Seq<char>, u32)>,
    i: int,
)
    requires
        0 <= i < numbers.len(),
    ensures
        #![trigger with_numbers(named, out, numbers), number_data(out, numbers)[i]]
        with_numbers(named, out, numbers).contains_key(number_data(out, numbers)[i].0),
    decreases numbers.len(),
{
    let last = numbers.len() - 1;
    if i < last {
        let rest = numbers.drop_last();
        lemma_numbers_are_named(named, out, rest, i);
        assert(number_data(out, rest)[i] == number_data(out, numbers)[i]);
    }
}

} // verus!
