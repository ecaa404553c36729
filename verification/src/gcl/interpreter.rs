//! The memory of the interpreter and the execution of a program graph on it.
use vstd::prelude::*;

use super::ast::{Array, Int, Target, Variable};
use super::pg::{node_name, outgoing_edges, Action, Edge, Node, ProgramGraph};
use super::semantics::{aexpr_sem, bexpr_sem, ContextModel, SemanticsContext, SemanticsError};
use super::stringify::Stringify;
use crate::text::{chars_order, lemma_chars_order_eq};
use crate::validation::ValidationResult;

verus! {

/// The abstract memory: the variables with their values and the arrays with
/// their contents, each list in the order of its names.
#[verifier::ext_equal]
pub struct MemoryV {
    pub variables: Seq<(Seq<char>, Int)>,
    pub arrays: Seq<(Seq<char>, Seq<Int>)>,
}

/// The names of an association list are strictly increasing.
pub open spec fn keys_sorted<V>(s: Seq<(Seq<char>, V)>) -> bool {
    forall|i: int, j: int|
        0 <= i < j < s.len() ==> chars_order(#[trigger] s[i].0, #[trigger] s[j].0) == -1
}

/// `i` is the first position of the name `k`.
pub open spec fn is_first_index<V>(s: Seq<(Seq<char>, V)>, k: Seq<char>, i: int) -> bool {
    &&& 0 <= i < s.len()
    &&& s[i].0 == k
    &&& forall|j: int| 0 <= j < i ==> s[j].0 != k
}

/// The first position of the name `k`, or -1 where it does not occur.
pub open spec fn first_index<V>(s: Seq<(Seq<char>, V)>, k: Seq<char>) -> int {
    if exists|i: int| is_first_index(s, k, i) {
        choose|i: int| is_first_index(s, k, i)
    } else {
        -1
    }
}

proof fn lemma_first_index<V>(s: Seq<(Seq<char>, V)>, k: Seq<char>, i: int)
    requires
        is_first_index(s, k, i),
    ensures
        first_index(s, k) == i,
{
    let j = choose|j: int| is_first_index(s, k, j);
    assert(is_first_index(s, k, j));
    if j < i {
        assert(s[j].0 != k);
    }
    if i < j {
        assert(s[i].0 != k);
    }
}

proof fn lemma_no_index<V>(s: Seq<(Seq<char>, V)>, k: Seq<char>)
    requires
        forall|j: int| 0 <= j < s.len() ==> s[j].0 != k,
    ensures
        first_index(s, k) == -1,
{
}

/// The memory of the interpreter: variables and arrays by name. Its lists are
/// kept in the order of their names, so that each name occurs once.
pub struct InterpreterMemory {
    pub variables: Vec<(Variable, Int)>,
    pub arrays: Vec<(Array, Vec<Int>)>,
}

impl View for InterpreterMemory {
    type V = MemoryV;

    open spec fn view(&self) -> MemoryV {
        MemoryV {
            variables: self.variables@.map_values(|p: (Variable, Int)| (p.0.0@, p.1)),
            arrays: self.arrays@.map_values(|p: (Array, Vec<Int>)| (p.0.0@, p.1@)),
        }
    }
}

/// The value of a variable: the first entry of its name.
pub open spec fn mem_variable(m: MemoryV, var: Variable) -> Result<Int, SemanticsError> {
    let i = first_index(m.variables, var.0@);
    if i >= 0 {
        Ok(m.variables[i].1)
    } else {
        Err(SemanticsError::VariableNotFound { name: var.0 })
    }
}

/// The contents of an array: those of the first entry of its name.
pub open spec fn mem_array(m: MemoryV, array: Array) -> Option<Seq<Int>> {
    let i = first_index(m.arrays, array.0@);
    if i >= 0 {
        Some(m.arrays[i].1)
    } else {
        None
    }
}

/// The number of occurrences of `x` in `s`.
pub open spec fn count_of(s: Seq<Int>, x: Int) -> nat {
    s.filter(|y: Int| y == x).len()
}

fn find_variable(v: &Vec<(Variable, Int)>, name: &String) -> (r: Option<usize>)
    ensures
        match r {
            Some(i) => i < v@.len() && first_index(
                v@.map_values(|p: (Variable, Int)| (p.0.0@, p.1)),
                name@,
            ) == i,
            None => first_index(v@.map_values(|p: (Variable, Int)| (p.0.0@, p.1)), name@) == -1,
        },
{
    let ghost s = v@.map_values(|p: (Variable, Int)| (p.0.0@, p.1));
    let mut i: usize = 0;
    while i < v.len()
        invariant
            i <= v@.len(),
            s == v@.map_values(|p: (Variable, Int)| (p.0.0@, p.1)),
            forall|j: int| 0 <= j < i ==> s[j].0 != name@,
        decreases v@.len() - i,
    {
        if v[i].0.0 == *name {
            proof {
                lemma_first_index(s, name@, i as int);
            }
            return Some(i);
        }
        i = i + 1;
    }
    proof {
        lemma_no_index(s, name@);
    }
    None
}

fn find_array(v: &Vec<(Array, Vec<Int>)>, name: &String) -> (r: Option<usize>)
    ensures
        match r {
            Some(i) => i < v@.len() && first_index(
                v@.map_values(|p: (Array, Vec<Int>)| (p.0.0@, p.1@)),
                name@,
            ) == i,
            None => first_index(v@.map_values(|p: (Array, Vec<Int>)| (p.0.0@, p.1@)), name@)
                == -1,
        },
{
    let ghost s = v@.map_values(|p: (Array, Vec<Int>)| (p.0.0@, p.1@));
    let mut i: usize = 0;
    while i < v.len()
        invariant
            i <= v@.len(),
            s == v@.map_values(|p: (Array, Vec<Int>)| (p.0.0@, p.1@)),
            forall|j: int| 0 <= j < i ==> s[j].0 != name@,
        decreases v@.len() - i,
    {
        if v[i].0.0 == *name {
            proof {
                lemma_first_index(s, name@, i as int);
            }
            return Some(i);
        }
        i = i + 1;
    }
    proof {
        lemma_no_index(s, name@);
    }
    None
}

fn copy_ints(v: &Vec<Int>) -> (r: Vec<Int>)
    ensures
        r@ == v@,
{
    let mut r: Vec<Int> = Vec::new();
    let mut i: usize = 0;
    while i < v.len()
        invariant
            i <= v@.len(),
            r@ == v@.take(i as int),
        decreases v@.len() - i,
    {
        r.push(v[i]);
        proof {
            assert(v@.take(i + 1) =~= v@.take(i as int).push(v@[i as int]));
        }
        i = i + 1;
    }
    assert(v@.take(i as int) =~= v@);
    r
}

impl InterpreterMemory {
    /// The empty memory.
    pub fn new() -> (r: Self)
        ensures
            r@.variables.len() == 0,
            r@.arrays.len() == 0,
    {
        InterpreterMemory { variables: Vec::new(), arrays: Vec::new() }
    }

    /// The names of each list increase strictly.
    pub open spec fn wf(&self) -> bool {
        keys_sorted(self@.variables) && keys_sorted(self@.arrays)
    }

    /// A copy of the memory.
    pub fn copy(&self) -> (r: Self)
        ensures
            r@ == self@,
    {
        let mut variables: Vec<(Variable, Int)> = Vec::new();
        let mut i: usize = 0;
        while i < self.variables.len()
            invariant
                i <= self.variables@.len(),
                variables@ == self.variables@.take(i as int),
            decreases self.variables@.len() - i,
        {
            let (v, x) = &self.variables[i];
            variables.push((v.clone(), *x));
            proof {
                assert(variables@ =~= self.variables@.take(i + 1));
            }
            i = i + 1;
        }
        assert(variables@ =~= self.variables@);
        let mut arrays: Vec<(Array, Vec<Int>)> = Vec::new();
        let mut j: usize = 0;
        while j < self.arrays.len()
            invariant
                j <= self.arrays@.len(),
                arrays@.len() == j,
                forall|k: int|
                    0 <= k < j ==> (#[trigger] arrays@[k]).0 == self.arrays@[k].0 && arrays@[k].1@
                        == self.arrays@[k].1@,
            decreases self.arrays@.len() - j,
        {
            let (a, data) = &self.arrays[j];
            arrays.push((a.clone(), copy_ints(data)));
            j = j + 1;
        }
        let r = InterpreterMemory { variables, arrays };
        assert(r@.variables =~= self@.variables);
        assert(r@.arrays =~= self@.arrays);
        r
    }

    /// Whether the two memories hold the same lists.
    pub fn same(&self, other: &Self) -> (r: bool)
        ensures
            r == (self@ == other@),
    {
        if self.variables.len() != other.variables.len() || self.arrays.len()
            != other.arrays.len() {
            proof {
                if self@ == other@ {
                    assert(self@.variables.len() == other@.variables.len());
                    assert(self@.arrays.len() == other@.arrays.len());
                }
            }
            return false;
        }
        let mut i: usize = 0;
        while i < self.variables.len()
            invariant
                i <= self.variables@.len(),
                self.variables@.len() == other.variables@.len(),
                forall|j: int| 0 <= j < i ==> self@.variables[j] == other@.variables[j],
            decreases self.variables@.len() - i,
        {
            if self.variables[i].0.0 != other.variables[i].0.0 || self.variables[i].1
                != other.variables[i].1 {
                proof {
                    if self@ == other@ {
                        assert(self@.variables[i as int] == other@.variables[i as int]);
                    }
                }
                return false;
            }
            i = i + 1;
        }
        let mut j: usize = 0;
        while j < self.arrays.len()
            invariant
                j <= self.arrays@.len(),
                self.arrays@.len() == other.arrays@.len(),
                forall|k: int| 0 <= k < j ==> self@.arrays[k] == other@.arrays[k],
            decreases self.arrays@.len() - j,
        {
            let same_data = ints_equal(&self.arrays[j].1, &other.arrays[j].1);
            if self.arrays[j].0.0 != other.arrays[j].0.0 || !same_data {
                proof {
                    if self@ == other@ {
                        assert(self@.arrays[j as int] == other@.arrays[j as int]);
                    }
                }
                return false;
            }
            j = j + 1;
        }
        assert(self@.variables =~= other@.variables);
        assert(self@.arrays =~= other@.arrays);
        true
    }

    /// `self` with `var` set to `value`; the variable must exist.
    pub fn set_variable(&self, var: &Variable, value: Int) -> (r: Result<Self, SemanticsError>)
        ensures
            match r {
                Ok(m) => set_variable_spec(self@, *var, value) == Ok::<MemoryV, SemanticsError>(m@),
                Err(e) => set_variable_spec(self@, *var, value) == Err::<MemoryV, SemanticsError>(e),
            },
    {
        match find_variable(&self.variables, &var.0) {
            Some(i) => {
                let mut m2 = self.copy();
                m2.variables.set(i, (var.clone(), value));
                proof {
                    assert(m2@.variables =~= self@.variables.update(i as int, (var.0@, value)));
                    assert(m2@ =~= MemoryV {
                        variables: self@.variables.update(i as int, (var.0@, value)),
                        arrays: self@.arrays,
                    });
                }
                Ok(m2)
            },
            None => Err(SemanticsError::VariableNotFound { name: var.0.clone() }),
        }
    }

    /// `self` with element `index` of `array` set to `value`; the array must
    /// exist and the index be within it. A missing array is reported as an
    /// index out of bounds, and an index out of bounds as a missing array.
    pub fn set_array_element(&self, array: &Array, index: Int, value: Int) -> (r: Result<
        Self,
        SemanticsError,
    >)
        ensures
            match r {
                Ok(m) => set_array_element_spec(self@, *array, index, value) == Ok::<
                    MemoryV,
                    SemanticsError,
                >(m@),
                Err(e) => set_array_element_spec(self@, *array, index, value) == Err::<
                    MemoryV,
                    SemanticsError,
                >(e),
            },
    {
        match find_array(&self.arrays, &array.0) {
            Some(i) => {
                let len = self.arrays[i].1.len();
                if 0 <= index && (index as u64) < (len as u64) {
                    let mut data = copy_ints(&self.arrays[i].1);
                    data.set(index as usize, value);
                    let mut m2 = self.copy();
                    m2.arrays.set(i, (array.clone(), data));
                    proof {
                        assert(m2@.arrays =~= self@.arrays.update(
                            i as int,
                            (array.0@, self@.arrays[i as int].1.update(index as int, value)),
                        ));
                        assert(m2@ =~= MemoryV {
                            variables: self@.variables,
                            arrays: self@.arrays.update(
                                i as int,
                                (array.0@, self@.arrays[i as int].1.update(index as int, value)),
                            ),
                        });
                    }
                    Ok(m2)
                } else {
                    Err(SemanticsError::ArrayNotFound { name: array.0.clone() })
                }
            },
            None => Err(SemanticsError::IndexOutOfBound { name: array.0.clone(), index }),
        }
    }
}

/// The memory with `var` set to `value`, where the variable exists.
pub open spec fn set_variable_spec(m: MemoryV, var: Variable, value: Int) -> Result<
    MemoryV,
    SemanticsError,
> {
    let i = first_index(m.variables, var.0@);
    if i >= 0 {
        Ok(MemoryV { variables: m.variables.update(i, (var.0@, value)), arrays: m.arrays })
    } else {
        Err(SemanticsError::VariableNotFound { name: var.0 })
    }
}

/// The memory with element `index` of `array` set to `value`, where the array
/// exists and the index is within it. A missing array is reported as an index
/// out of bounds, and an index out of bounds as a missing array.
pub open spec fn set_array_element_spec(m: MemoryV, array: Array, index: Int, value: Int) -> Result<
    MemoryV,
    SemanticsError,
> {
    let i = first_index(m.arrays, array.0@);
    if i >= 0 {
        let data = m.arrays[i].1;
        if 0 <= index < data.len() {
            Ok(
                MemoryV {
                    variables: m.variables,
                    arrays: m.arrays.update(i, (array.0@, data.update(index as int, value))),
                },
            )
        } else {
            Err(SemanticsError::ArrayNotFound { name: array.0 })
        }
    } else {
        Err(SemanticsError::IndexOutOfBound { name: array.0, index })
    }
}

fn ints_equal(a: &Vec<Int>, b: &Vec<Int>) -> (r: bool)
    ensures
        r == (a@ == b@),
{
    if a.len() != b.len() {
        return false;
    }
    let mut i: usize = 0;
    while i < a.len()
        invariant
            i <= a@.len(),
            a@.len() == b@.len(),
            forall|j: int| 0 <= j < i ==> a@[j] == b@[j],
        decreases a@.len() - i,
    {
        if a[i] != b[i] {
            return false;
        }
        i = i + 1;
    }
    assert(a@ =~= b@);
    true
}

fn count_in(data: &Vec<Int>, element: Int) -> (r: usize)
    ensures
        r == count_of(data@, element),
{
    let mut n: usize = 0;
    let mut i: usize = 0;
    proof {
        reveal(Seq::filter);
    }
    while i < data.len()
        invariant
            i <= data@.len(),
            n == count_of(data@.take(i as int), element),
            n <= i,
        decreases data@.len() - i,
    {
        proof {
            reveal(Seq::filter);
            assert(data@.take(i + 1).drop_last() =~= data@.take(i as int));
        }
        if data[i] == element {
            n = n + 1;
        }
        i = i + 1;
    }
    assert(data@.take(i as int) =~= data@);
    n
}

/// What a memory says of names.
pub open spec fn memory_model(m: MemoryV) -> ContextModel {
    ContextModel {
        variable: |var: Variable| mem_variable(m, var),
        array_element: |array: Array, index: Int|
            match mem_array(m, array) {
                Some(data) => if 0 <= index < data.len() {
                    Ok(data[index as int])
                } else {
                    Err(SemanticsError::IndexOutOfBound { name: array.0, index })
                },
                None => Err(SemanticsError::ArrayNotFound { name: array.0 }),
            },
        array_length: |array: Array|
            match mem_array(m, array) {
                Some(data) => Ok(data.len() as Int),
                None => Err(SemanticsError::ArrayNotFound { name: array.0 }),
            },
        array_count: |array: Array, element: Int|
            match mem_array(m, array) {
                Some(data) => Ok(count_of(data, element) as Int),
                None => Err(SemanticsError::ArrayNotFound { name: array.0 }),
            },
    }
}

impl SemanticsContext for InterpreterMemory {
    open spec fn model(&self) -> ContextModel {
        memory_model(self@)
    }

    fn variable(&self, var: &Variable) -> (r: Result<Int, SemanticsError>) {
        match find_variable(&self.variables, &var.0) {
            Some(i) => Ok(self.variables[i].1),
            None => Err(SemanticsError::VariableNotFound { name: var.0.clone() }),
        }
    }

    fn array_element(&self, array: &Array, index: Int) -> (r: Result<Int, SemanticsError>) {
        match find_array(&self.arrays, &array.0) {
            Some(i) => {
                let data = &self.arrays[i].1;
                if 0 <= index && (index as u64) < (data.len() as u64) {
                    Ok(data[index as usize])
                } else {
                    Err(SemanticsError::IndexOutOfBound { name: array.0.clone(), index })
                }
            },
            None => Err(SemanticsError::ArrayNotFound { name: array.0.clone() }),
        }
    }

    fn array_length(&self, array: &Array) -> (r: Result<Int, SemanticsError>) {
        match find_array(&self.arrays, &array.0) {
            Some(i) => Ok(self.arrays[i].1.len() as Int),
            None => Err(SemanticsError::ArrayNotFound { name: array.0.clone() }),
        }
    }

    fn array_count(&self, array: &Array, element: Int) -> (r: Result<Int, SemanticsError>) {
        match find_array(&self.arrays, &array.0) {
            Some(i) => Ok(count_in(&self.arrays[i].1, element) as Int),
            None => Err(SemanticsError::ArrayNotFound { name: array.0.clone() }),
        }
    }
}

/// The memory after an action, an error, or `None` where evaluating the
/// action panics. An assignment to an array element evaluates the index
/// before the value.
pub open spec fn action_sem(a: Action, m: MemoryV) -> Option<Result<MemoryV, SemanticsError>> {
    let cx = memory_model(m);
    match a {
        Action::Skip => Some(Ok(m)),
        Action::Condition(b) => match bexpr_sem(b, cx) {
            Some(Ok(v)) => if v {
                Some(Ok(m))
            } else {
                Some(Err(SemanticsError::NoProgression))
            },
            Some(Err(e)) => Some(Err(e)),
            None => None,
        },
        Action::Assignment(t, x) => match t {
            Target::Variable(v) => match aexpr_sem(x, cx) {
                Some(Ok(value)) => Some(set_variable_spec(m, v, value)),
                Some(Err(e)) => Some(Err(e)),
                None => None,
            },
            Target::Array(arr, idx) => match aexpr_sem(*idx, cx) {
                Some(Ok(i)) => match aexpr_sem(x, cx) {
                    Some(Ok(value)) => Some(set_array_element_spec(m, arr, i, value)),
                    Some(Err(e)) => Some(Err(e)),
                    None => None,
                },
                Some(Err(e)) => Some(Err(e)),
                None => None,
            },
        },
    }
}

impl Action {
    /// The memory after the action.
    pub fn semantics(&self, mem: &InterpreterMemory) -> (r: Result<InterpreterMemory, SemanticsError>)
        requires
            action_sem(*self, mem@) is Some,
        ensures
            match r {
                Ok(m) => action_sem(*self, mem@) == Some(Ok::<MemoryV, SemanticsError>(m@)),
                Err(e) => action_sem(*self, mem@) == Some(Err::<MemoryV, SemanticsError>(e)),
            },
    {
        match self {
            Action::Skip => Ok(mem.copy()),
            Action::Condition(b) => {
                if b.semantics(mem)? {
                    Ok(mem.copy())
                } else {
                    Err(SemanticsError::NoProgression)
                }
            },
            Action::Assignment(t, x) => match t {
                Target::Variable(v) => {
                    let value = x.semantics(mem)?;
                    mem.set_variable(v, value)
                },
                Target::Array(arr, idx) => {
                    let i = idx.semantics(mem)?;
                    let value = x.semantics(mem)?;
                    mem.set_array_element(arr, i, value)
                },
            },
        }
    }
}

/// A step of an execution: the action taken, the name of the node reached,
/// and the memory after it.
pub struct Step {
    pub action: Stringify<Action>,
    pub node: String,
    pub memory: InterpreterMemory,
}

/// The abstract value of a step.
#[verifier::ext_equal]
pub struct StepV {
    pub action: Action,
    pub node: Seq<char>,
    pub memory: MemoryV,
}

impl View for Step {
    type V = StepV;

    open spec fn view(&self) -> StepV {
        StepV { action: self.action.0, node: self.node@, memory: self.memory@ }
    }
}

impl Step {
    /// A copy of the step.
    pub fn copy(&self) -> (r: Step)
        ensures
            r@ == self@,
    {
        Step {
            action: Stringify::new(self.action.0.clone()),
            node: self.node.clone(),
            memory: self.memory.copy(),
        }
    }
}

/// Whether an execution can go on, is stuck before the end, or has ended.
#[derive(Clone, Copy, PartialEq, Eq, Structural, Debug)]
pub enum TerminationState {
    Running,
    Stuck,
    Terminated,
}

/// An execution of a program graph: the initial memory and the steps taken,
/// each with the node it reached.
pub struct Execution {
    pub initial_memory: InterpreterMemory,
    pub trace: Vec<(Step, Node)>,
}

/// The abstract value of an execution.
#[verifier::ext_equal]
pub struct ExecutionV {
    pub initial: MemoryV,
    pub trace: Seq<(StepV, Node)>,
}

impl View for Execution {
    type V = ExecutionV;

    open spec fn view(&self) -> ExecutionV {
        ExecutionV {
            initial: self.initial_memory@,
            trace: self.trace@.map_values(|p: (Step, Node)| (p.0@, p.1)),
        }
    }
}

/// The node an execution is at: that of its last step, or the start.
pub open spec fn exec_node(v: ExecutionV) -> Node {
    if v.trace.len() == 0 {
        Node::Start
    } else {
        v.trace.last().1
    }
}

/// The memory of an execution: that of its last step, or the initial one.
pub open spec fn exec_mem(v: ExecutionV) -> MemoryV {
    if v.trace.len() == 0 {
        v.initial
    } else {
        v.trace.last().0.memory
    }
}

/// The edges of the graph that leave the node of the execution.
pub open spec fn exec_out(v: ExecutionV, edges: Seq<Edge>) -> Seq<Edge> {
    outgoing_edges(edges, exec_node(v))
}

/// Every action that leaves the node fails on the memory.
pub open spec fn exec_stuck(v: ExecutionV, edges: Seq<Edge>) -> bool {
    forall|i: int|
        0 <= i < exec_out(v, edges).len() ==> action_sem(
            #[trigger] exec_out(v, edges)[i].1,
            exec_mem(v),
        ) matches Some(Err(_))
}

/// No action that leaves the node panics on the memory.
pub open spec fn exec_defined(v: ExecutionV, edges: Seq<Edge>) -> bool {
    forall|i: int|
        0 <= i < exec_out(v, edges).len() ==> action_sem(
            #[trigger] exec_out(v, edges)[i].1,
            exec_mem(v),
        ) is Some
}

/// The edges whose action succeeds on `m`, in order, each with the memory it
/// leads to.
pub open spec fn successes(out: Seq<Edge>, m: MemoryV) -> Seq<(Edge, MemoryV)>
    decreases out.len(),
{
    if out.len() == 0 {
        Seq::empty()
    } else {
        let rest = successes(out.drop_last(), m);
        match action_sem(out.last().1, m) {
            Some(Ok(m2)) => rest.push((out.last(), m2)),
            _ => rest,
        }
    }
}

/// The execution extended by a step along `e` to the memory `m`.
pub open spec fn extend(v: ExecutionV, e: Edge, m: MemoryV) -> ExecutionV {
    ExecutionV {
        initial: v.initial,
        trace: v.trace.push((StepV { action: e.1, node: node_name(e.2), memory: m }, e.2)),
    }
}

/// The executions one step longer than `v`, in the order of the edges.
pub open spec fn exec_nexts(v: ExecutionV, edges: Seq<Edge>) -> Seq<ExecutionV> {
    successes(exec_out(v, edges), exec_mem(v)).map_values(
        |p: (Edge, MemoryV)| extend(v, p.0, p.1),
    )
}

proof fn lemma_stuck_no_successes(out: Seq<Edge>, m: MemoryV)
    requires
        forall|i: int| 0 <= i < out.len() ==> action_sem(#[trigger] out[i].1, m) matches Some(Err(_)),
    ensures
        successes(out, m).len() == 0,
    decreases out.len(),
{
    if out.len() > 0 {
        assert(action_sem(out[out.len() - 1].1, m) matches Some(Err(_)));
        lemma_stuck_no_successes(out.drop_last(), m);
    }
}

impl Execution {
    /// The execution that has taken no step.
    pub fn new(initial_memory: InterpreterMemory) -> (r: Self)
        ensures
            r@ == (ExecutionV { initial: initial_memory@, trace: Seq::empty() }),
    {
        let r = Execution { initial_memory, trace: Vec::new() };
        assert(r@.trace =~= Seq::empty());
        r
    }

    /// The steps taken, each with the node it reached.
    pub fn trace(&self) -> (r: &[(Step, Node)])
        ensures
            r@ == self.trace@,
    {
        self.trace.as_slice()
    }

    /// The node the execution is at.
    pub fn current_node(&self) -> (r: Node)
        ensures
            r == exec_node(self@),
    {
        if self.trace.len() == 0 {
            Node::Start
        } else {
            self.trace[self.trace.len() - 1].1
        }
    }

    /// The memory of the execution.
    pub fn current_mem(&self) -> (r: &InterpreterMemory)
        ensures
            r@ == exec_mem(self@),
    {
        if self.trace.len() == 0 {
            &self.initial_memory
        } else {
            &self.trace[self.trace.len() - 1].0.memory
        }
    }

    /// Whether the execution is at the end node.
    pub fn is_finished(&self) -> (r: bool)
        ensures
            r == (exec_node(self@) == Node::End),
    {
        self.current_node() == Node::End
    }

    /// Whether every action that leaves the current node fails.
    pub fn is_stuck(&self, pg: &ProgramGraph) -> (r: bool)
        requires
            exec_defined(self@, pg.edges@),
        ensures
            r == exec_stuck(self@, pg.edges@),
    {
        let out = pg.outgoing(self.current_node());
        let mem = self.current_mem();
        let mut i: usize = 0;
        while i < out.len()
            invariant
                i <= out@.len(),
                out@ == exec_out(self@, pg.edges@),
                mem@ == exec_mem(self@),
                exec_defined(self@, pg.edges@),
                forall|j: int|
                    0 <= j < i ==> action_sem(#[trigger] out@[j].1, mem@) matches Some(Err(_)),
            decreases out@.len() - i,
        {
            assert(action_sem(out@[i as int].1, mem@) is Some);
            if out[i].1.semantics(mem).is_ok() {
                return false;
            }
            i = i + 1;
        }
        true
    }

    /// Running while an action can be taken; otherwise terminated at the end
    /// node and stuck elsewhere.
    pub fn state(&self, pg: &ProgramGraph) -> (r: TerminationState)
        requires
            exec_defined(self@, pg.edges@),
        ensures
            r == (if exec_stuck(self@, pg.edges@) {
                if exec_node(self@) == Node::End {
                    TerminationState::Terminated
                } else {
                    TerminationState::Stuck
                }
            } else {
                TerminationState::Running
            }),
    {
        if self.is_stuck(pg) {
            if self.is_finished() {
                TerminationState::Terminated
            } else {
                TerminationState::Stuck
            }
        } else {
            TerminationState::Running
        }
    }

    /// A copy of the execution.
    pub fn copy(&self) -> (r: Self)
        ensures
            r@ == self@,
    {
        let mut trace: Vec<(Step, Node)> = Vec::new();
        let mut i: usize = 0;
        while i < self.trace.len()
            invariant
                i <= self.trace@.len(),
                trace@.len() == i,
                forall|k: int|
                    0 <= k < i ==> (#[trigger] trace@[k]).0@ == self.trace@[k].0@ && trace@[k].1
                        == self.trace@[k].1,
            decreases self.trace@.len() - i,
        {
            let (step, node) = &self.trace[i];
            trace.push((step.copy(), *node));
            i = i + 1;
        }
        let r = Execution { initial_memory: self.initial_memory.copy(), trace };
        assert(r@.trace =~= self@.trace);
        r
    }

    /// The executions one step longer, one for each action that leaves the
    /// current node and succeeds, in the order of the edges; none where the
    /// execution is stuck.
    pub fn nexts(&self, pg: &ProgramGraph) -> (r: Vec<Execution>)
        requires
            exec_defined(self@, pg.edges@),
        ensures
            r@.map_values(|x: Execution| x@) == exec_nexts(self@, pg.edges@),
    {
        if self.is_stuck(pg) {
            proof {
                lemma_stuck_no_successes(exec_out(self@, pg.edges@), exec_mem(self@));
            }
            let r: Vec<Execution> = Vec::new();
            assert(r@.map_values(|x: Execution| x@) =~= exec_nexts(self@, pg.edges@));
            return r;
        }
        let out = pg.outgoing(self.current_node());
        let mem = self.current_mem();
        let ghost succ = successes(out@, mem@);
        let mut r: Vec<Execution> = Vec::new();
        let mut i: usize = 0;
        while i < out.len()
            invariant
                i <= out@.len(),
                out@ == exec_out(self@, pg.edges@),
                mem@ == exec_mem(self@),
                exec_defined(self@, pg.edges@),
                r@.len() == successes(out@.take(i as int), mem@).len(),
                forall|k: int|
                    0 <= k < r@.len() ==> (#[trigger] r@[k])@ == extend(
                        self@,
                        successes(out@.take(i as int), mem@)[k].0,
                        successes(out@.take(i as int), mem@)[k].1,
                    ),
            decreases out@.len() - i,
        {
            let Edge(_, action, next_node) = &out[i];
            assert(action_sem(out@[i as int].1, mem@) is Some);
            let ghost before = r@;
            proof {
                assert(out@.take(i + 1).drop_last() =~= out@.take(i as int));
                assert(out@.take(i + 1).last() == out@[i as int]);
            }
            match action.semantics(mem) {
                Ok(next_mem) => {
                    let mut next = self.copy();
                    let step = Step {
                        node: next_node.name(),
                        action: Stringify::new(action.clone()),
                        memory: next_mem,
                    };
                    next.trace.push((step, *next_node));
                    proof {
                        assert(next@.trace =~= self@.trace.push(
                            (
                                StepV {
                                    action: out@[i as int].1,
                                    node: node_name(out@[i as int].2),
                                    memory: next_mem@,
                                },
                                out@[i as int].2,
                            ),
                        ));
                    }
                    proof {
                        assert(successes(out@.take(i + 1), mem@) == successes(
                            out@.take(i as int),
                            mem@,
                        ).push((out@[i as int], next_mem@)));
                    }
                    r.push(next);
                },
                Err(_) => {
                    proof {
                        assert(successes(out@.take(i + 1), mem@) == successes(
                            out@.take(i as int),
                            mem@,
                        ));
                    }
                },
            }
            i = i + 1;
        }
        assert(out@.take(i as int) =~= out@);
        assert(r@.map_values(|x: Execution| x@) =~= exec_nexts(self@, pg.edges@));
        r
    }
}

/// How an execution ends: its first successor is taken for at most `n`
/// steps; it stops early where the successor is stuck, or where there is
/// none, and then reports terminated at the end node and stuck elsewhere.
pub open spec fn run_spec(v: ExecutionV, edges: Seq<Edge>, n: nat) -> (ExecutionV, TerminationState)
    decreases n,
{
    if n == 0 {
        (v, TerminationState::Running)
    } else {
        let ns = exec_nexts(v, edges);
        if ns.len() > 0 {
            let next = ns[0];
            if exec_stuck(next, edges) {
                (
                    next,
                    if exec_node(next) == Node::End {
                        TerminationState::Terminated
                    } else {
                        TerminationState::Stuck
                    },
                )
            } else {
                run_spec(next, edges, (n - 1) as nat)
            }
        } else {
            (
                v,
                if exec_node(v) == Node::End {
                    TerminationState::Terminated
                } else {
                    TerminationState::Stuck
                },
            )
        }
    }
}

/// No action that the run of `run_spec` evaluates panics.
pub open spec fn run_defined(v: ExecutionV, edges: Seq<Edge>, n: nat) -> bool
    decreases n,
{
    &&& exec_defined(v, edges)
    &&& (n > 0 && exec_nexts(v, edges).len() > 0) ==> run_defined(
        exec_nexts(v, edges)[0],
        edges,
        (n - 1) as nat,
    )
}

/// The number of steps asked for, where a negative number asks for none.
pub open spec fn steps_asked(trace_length: Int) -> nat {
    if trace_length > 0 {
        trace_length as nat
    } else {
        0
    }
}

/// Runs the program graph from `initial_memory`, taking the first possible
/// step each time, for at most `trace_length` steps; returns the execution
/// and how it ended.
pub fn run(pg: &ProgramGraph, initial_memory: InterpreterMemory, trace_length: Int) -> (r: (
    Execution,
    TerminationState,
))
    requires
        run_defined(
            ExecutionV { initial: initial_memory@, trace: Seq::empty() },
            pg.edges@,
            steps_asked(trace_length),
        ),
    ensures
        (r.0@, r.1) == run_spec(
            ExecutionV { initial: initial_memory@, trace: Seq::empty() },
            pg.edges@,
            steps_asked(trace_length),
        ),
{
    let ghost goal = run_spec(
        ExecutionV { initial: initial_memory@, trace: Seq::empty() },
        pg.edges@,
        steps_asked(trace_length),
    );
    let ghost n = steps_asked(trace_length);
    let mut termination = TerminationState::Running;
    let mut exe = Execution::new(initial_memory);
    let mut k: Int = 0;
    let mut done = false;
    while !done && k < trace_length
        invariant
            0 <= k,
            k <= n || done,
            n == steps_asked(trace_length),
            !done ==> termination == TerminationState::Running,
            !done ==> k <= n && run_spec(exe@, pg.edges@, (n - k) as nat) == goal && run_defined(
                exe@,
                pg.edges@,
                (n - k) as nat,
            ),
            done ==> (exe@, termination) == goal,
        decreases (if done { 0int } else { 1int }) + (if k <= n { n - k } else { 0 }),
    {
        let nexts = exe.nexts(pg);
        proof {
            assert(nexts@.len() == exec_nexts(exe@, pg.edges@).len());
        }
        if nexts.len() > 0 {
            let next = nexts[0].copy();
            proof {
                assert(nexts@.map_values(|x: Execution| x@)[0] == nexts@[0]@);
                assert(next@ == exec_nexts(exe@, pg.edges@)[0]);
                assert((n - k) as nat > 0);
                assert(run_defined(next@, pg.edges@, (n - k - 1) as nat));
                assert(run_spec(exe@, pg.edges@, (n - k) as nat) == (if exec_stuck(
                    next@,
                    pg.edges@,
                ) {
                    (
                        next@,
                        if exec_node(next@) == Node::End {
                            TerminationState::Terminated
                        } else {
                            TerminationState::Stuck
                        },
                    )
                } else {
                    run_spec(next@, pg.edges@, (n - k - 1) as nat)
                }));
            }
            if next.is_stuck(pg) {
                termination = if next.is_finished() {
                    TerminationState::Terminated
                } else {
                    TerminationState::Stuck
                };
                exe = next;
                done = true;
            } else {
                exe = next;
                k = k + 1;
            }
        } else {
            proof {
                assert((n - k) as nat > 0);
            }
            termination = if exe.is_finished() {
                TerminationState::Terminated
            } else {
                TerminationState::Stuck
            };
            done = true;
        }
    }
    proof {
        if !done {
            assert(k >= trace_length);
            assert((n - k) as nat == 0);
        }
    }
    (exe, termination)
}

/// The executions of `ps`, each followed by each of its successors, in order.
pub open spec fn step_all(ps: Seq<ExecutionV>, edges: Seq<Edge>) -> Seq<ExecutionV>
    decreases ps.len(),
{
    if ps.len() == 0 {
        Seq::empty()
    } else {
        step_all(ps.drop_last(), edges) + exec_nexts(ps.last(), edges)
    }
}

/// The executions of `ps` whose memory is `m`, in order.
pub open spec fn keep_mem(ps: Seq<ExecutionV>, m: MemoryV) -> Seq<ExecutionV>
    decreases ps.len(),
{
    if ps.len() == 0 {
        Seq::empty()
    } else {
        let rest = keep_mem(ps.drop_last(), m);
        if exec_mem(ps.last()) == m {
            rest.push(ps.last())
        } else {
            rest
        }
    }
}

/// The executions from `init` whose memories after each step are `mems`.
pub open spec fn possible(init: ExecutionV, mems: Seq<MemoryV>, edges: Seq<Edge>) -> Seq<
    ExecutionV,
>
    decreases mems.len(),
{
    if mems.len() == 0 {
        seq![init]
    } else {
        keep_mem(step_all(possible(init, mems.drop_last(), edges), edges), mems.last())
    }
}

/// No action that the validation of the memories `mems` evaluates panics.
pub open spec fn possible_defined(init: ExecutionV, mems: Seq<MemoryV>, edges: Seq<Edge>) -> bool {
    forall|i: int, j: int|
        0 <= i <= mems.len() && 0 <= j < possible(init, mems.take(i), edges).len()
            ==> exec_defined(#[trigger] possible(init, mems.take(i), edges)[j], edges)
}

proof fn lemma_possible_empty(init: ExecutionV, mems: Seq<MemoryV>, edges: Seq<Edge>, i: int)
    requires
        0 <= i <= mems.len(),
        possible(init, mems.take(i), edges).len() == 0,
    ensures
        possible(init, mems, edges).len() == 0,
    decreases mems.len() - i,
{
    if i < mems.len() {
        assert(mems.take(i + 1).drop_last() =~= mems.take(i));
        assert(step_all(possible(init, mems.take(i), edges), edges).len() == 0);
        assert(keep_mem(Seq::<ExecutionV>::empty(), mems.take(i + 1).last()).len() == 0);
        assert(step_all(possible(init, mems.take(i), edges), edges) =~= Seq::<ExecutionV>::empty());
        lemma_possible_empty(init, mems, edges, i + 1);
    } else {
        assert(mems.take(i) =~= mems);
    }
}

/// The memories after each step of a trace.
pub open spec fn trace_mems(trace: Seq<Step>) -> Seq<MemoryV> {
    trace.map_values(|s: Step| s.memory@)
}

fn next_possible(pg: &ProgramGraph, ps: &Vec<Execution>, m: &InterpreterMemory) -> (r: Vec<
    Execution,
>)
    requires
        forall|j: int| 0 <= j < ps@.len() ==> exec_defined(#[trigger] ps@[j]@, pg.edges@),
    ensures
        r@.map_values(|x: Execution| x@) == keep_mem(
            step_all(ps@.map_values(|x: Execution| x@), pg.edges@),
            m@,
        ),
{
    let ghost vs = ps@.map_values(|x: Execution| x@);
    let mut r: Vec<Execution> = Vec::new();
    let mut j: usize = 0;
    while j < ps.len()
        invariant
            j <= ps@.len(),
            vs == ps@.map_values(|x: Execution| x@),
            forall|k: int| 0 <= k < ps@.len() ==> exec_defined(#[trigger] ps@[k]@, pg.edges@),
            r@.map_values(|x: Execution| x@) == keep_mem(step_all(vs.take(j as int), pg.edges@), m@),
        decreases ps@.len() - j,
    {
        let ns = ps[j].nexts(pg);
        let ghost ns_v = ns@.map_values(|x: Execution| x@);
        let ghost base = r@.map_values(|x: Execution| x@);
        let mut l: usize = 0;
        proof {
            assert(vs.take(j + 1).drop_last() =~= vs.take(j as int));
            assert(vs.take(j + 1).last() == ps@[j as int]@);
            assert(ns_v.take(0) =~= Seq::<ExecutionV>::empty());
            assert(step_all(vs.take(j as int), pg.edges@) + ns_v.take(0) =~= step_all(
                vs.take(j as int),
                pg.edges@,
            ));
        }
        while l < ns.len()
            invariant
                l <= ns@.len(),
                ns_v == ns@.map_values(|x: Execution| x@),
                r@.map_values(|x: Execution| x@) == keep_mem(
                    step_all(vs.take(j as int), pg.edges@) + ns_v.take(l as int),
                    m@,
                ),
            decreases ns@.len() - l,
        {
            let ghost prefix = step_all(vs.take(j as int), pg.edges@) + ns_v.take(l as int);
            proof {
                assert((step_all(vs.take(j as int), pg.edges@) + ns_v.take(l + 1)).drop_last()
                    =~= prefix);
                assert((step_all(vs.take(j as int), pg.edges@) + ns_v.take(l + 1)).last()
                    == ns@[l as int]@);
            }
            if ns[l].current_mem().same(m) {
                let ghost before = r@;
                r.push(ns[l].copy());
                proof {
                    assert(r@.map_values(|x: Execution| x@) =~= before.map_values(
                        |x: Execution| x@,
                    ).push(ns@[l as int]@));
                }
            }
            l = l + 1;
        }
        proof {
            assert(ns_v.take(l as int) =~= ns_v);
        }
        j = j + 1;
    }
    assert(vs.take(j as int) =~= vs);
    r
}

/// The execution that has taken no step from `m`.
pub open spec fn start(m: MemoryV) -> ExecutionV {
    ExecutionV { initial: m, trace: Seq::empty() }
}

/// Some execution of `ps` is at the end node.
pub open spec fn some_finished(ps: Seq<ExecutionV>) -> bool {
    exists|j: int| 0 <= j < ps.len() && exec_node(#[trigger] ps[j]) == Node::End
}

/// Some execution of `ps` is stuck.
pub open spec fn some_stuck(ps: Seq<ExecutionV>, edges: Seq<Edge>) -> bool {
    exists|j: int| 0 <= j < ps.len() && exec_stuck(#[trigger] ps[j], edges)
}

/// The verdict on a claimed outcome, given the executions `ps` that pass
/// through the memories of the trace: none is a mismatch; a claim to be
/// running is then correct; a claim to have terminated needs an execution at
/// the end node, and a claim to be stuck a stuck execution.
pub open spec fn validation_spec(
    ps: Seq<ExecutionV>,
    n_steps: nat,
    edges: Seq<Edge>,
    termination: TerminationState,
    r: ValidationResult,
) -> bool {
    if ps.len() == 0 {
        r matches ValidationResult::Mismatch { reason } && reason@ == "No possible execution found"@
    } else if termination == TerminationState::Running {
        r == ValidationResult::CorrectNonTerminated { iterations: n_steps as u64 }
    } else if termination == TerminationState::Terminated {
        if some_finished(ps) {
            r == ValidationResult::CorrectTerminated
        } else {
            r matches ValidationResult::Mismatch { reason } && reason@
                == "No execution reached the end"@
        }
    } else if !some_stuck(ps, edges) {
        r matches ValidationResult::Mismatch { reason } && reason@ == "No stuck execution found"@
    } else {
        r == ValidationResult::CorrectTerminated
    }
}

/// Checks that `trace` and `termination` are a possible outcome of running
/// the program graph from `initial_memory` for `trace_length` steps: some
/// execution must pass through the memories of the trace, and one of them
/// must end, or be stuck, as claimed.
pub fn validate(
    pg: &ProgramGraph,
    initial_memory: &InterpreterMemory,
    trace: &Vec<Step>,
    termination: TerminationState,
    trace_length: Int,
) -> (r: ValidationResult)
    requires
        possible_defined(
            start(initial_memory@),
            trace_mems(trace@),
            pg.edges@,
        ),
    ensures
        validation_spec(
            possible(start(initial_memory@), trace_mems(trace@), pg.edges@),
            trace@.len(),
            pg.edges@,
            termination,
            r,
        ),
{
    let ghost init = start(initial_memory@);
    let ghost mems = trace_mems(trace@);
    let mut ps: Vec<Execution> = Vec::new();
    ps.push(Execution::new(initial_memory.copy()));
    let mut i: usize = 0;
    proof {
        assert(mems.take(0) =~= Seq::<MemoryV>::empty());
        assert(ps@.map_values(|x: Execution| x@) =~= possible(init, mems.take(0), pg.edges@));
    }
    while i < trace.len()
        invariant
            i <= trace@.len(),
            init == start(initial_memory@),
            mems == trace_mems(trace@),
            possible_defined(init, mems, pg.edges@),
            ps@.map_values(|x: Execution| x@) == possible(init, mems.take(i as int), pg.edges@),
        decreases trace@.len() - i,
    {
        proof {
            assert forall|j: int| 0 <= j < ps@.len() implies exec_defined(
                #[trigger] ps@[j]@,
                pg.edges@,
            ) by {
                assert(ps@.map_values(|x: Execution| x@)[j] == ps@[j]@);
            }
        }
        ps = next_possible(pg, &ps, &trace[i].memory);
        proof {
            assert(mems.take(i + 1).drop_last() =~= mems.take(i as int));
            assert(mems.take(i + 1).last() == trace@[i as int].memory@);
        }
        i = i + 1;
        assert(ps@.map_values(|x: Execution| x@) == possible(init, mems.take(i as int), pg.edges@));
        if ps.len() == 0 {
            proof {
                assert(possible(init, mems.take(i as int), pg.edges@).len() == 0);
                lemma_possible_empty(init, mems, pg.edges@, i as int);
            }
            let reason = String::from_str("No possible execution found");
            return ValidationResult::Mismatch { reason };
        }
    }
    proof {
        assert(mems.take(i as int) =~= mems);
    }
    let ghost ps_v = ps@.map_values(|x: Execution| x@);
    assert(ps_v == possible(init, mems, pg.edges@));
    assert(ps_v == possible(start(initial_memory@), trace_mems(trace@), pg.edges@));
    proof {
        if ps@.len() == 0 {
            assert(ps_v.len() == 0);
        }
        assert forall|j: int| 0 <= j < ps@.len() implies exec_defined(#[trigger] ps@[j]@, pg.edges@)
            by {
            assert(ps_v[j] == ps@[j]@);
            assert(mems.take(mems.len() as int) =~= mems);
        }
    }
    if ps.len() == 0 {
        return ValidationResult::Mismatch {
            reason: String::from_str("No possible execution found"),
        };
    }
    if termination == TerminationState::Running {
        return ValidationResult::CorrectNonTerminated { iterations: trace.len() as u64 };
    }
    if termination == TerminationState::Terminated {
        let mut j: usize = 0;
        while j < ps.len()
            invariant
                j <= ps@.len(),
                ps_v == ps@.map_values(|x: Execution| x@),
                ps_v == possible(start(initial_memory@), trace_mems(trace@), pg.edges@),
                forall|k: int| 0 <= k < j ==> exec_node(#[trigger] ps_v[k]) != Node::End,
                termination == TerminationState::Terminated,
            decreases ps@.len() - j,
        {
            if ps[j].is_finished() {
                assert(ps_v[j as int] == ps@[j as int]@);
                return ValidationResult::CorrectTerminated;
            }
            j = j + 1;
        }
        return ValidationResult::Mismatch { reason: String::from_str("No execution reached the end") };
    }
    let few = (trace.len() as u64) < (trace_length as u64);
    if few || termination == TerminationState::Stuck {
        if termination == TerminationState::Running {
            return ValidationResult::Mismatch {
                reason: String::from_str("Not enough traces were produced"),
            };
        }
        let mut j: usize = 0;
        while j < ps.len()
            invariant
                j <= ps@.len(),
                ps_v == ps@.map_values(|x: Execution| x@),
                ps_v == possible(start(initial_memory@), trace_mems(trace@), pg.edges@),
                forall|k: int| 0 <= k < ps@.len() ==> exec_defined(#[trigger] ps@[k]@, pg.edges@),
                forall|k: int| 0 <= k < j ==> !exec_stuck(#[trigger] ps_v[k], pg.edges@),
                termination == TerminationState::Stuck,
            decreases ps@.len() - j,
        {
            if ps[j].is_stuck(pg) {
                assert(ps_v[j as int] == ps@[j as int]@);
                return ValidationResult::CorrectTerminated;
            }
            j = j + 1;
        }
        return ValidationResult::Mismatch { reason: String::from_str("No stuck execution found") };
    }
    ValidationResult::CorrectTerminated
}

} // verus!
