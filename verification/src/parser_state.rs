use crate::compilation_error::CompErr;
use crate::external_functions::{learning, learnt, not_learnt, ostia_compress};
use crate::learn::ostia_compress::Inferred;
use crate::func_arg::{FuncArg, FuncArgs};
use crate::g::{GView, G};
use crate::pipeline::{ExternalStage, Pipeline};
use crate::ranged_graph::RangedGraph;
use crate::v::V;
use vstd::prelude::*;

verus! {

/// A transducer that is bound to a name.
pub struct Variable {
    pub name: String,
    /// Where the name was bound.
    pub pos: V,
    /// Whether the transducer is copied each time it is used; one that is not
    /// is given away the first time.
    pub always_copy: bool,
    pub g: G,
    /// The ranged graph of the transducer, once it was asked for.
    pub r: Option<RangedGraph>,
}

/// A pipeline that is bound to a name.
pub struct NamedPipeline<X: ExternalStage> {
    pub name: String,
    pub pos: V,
    pub pipeline: Pipeline<X>,
}

/// What is to be done for a call of an external function.
pub enum ExternalAction {
    /// Nothing more: this is the graph that the call gives.
    Graph(G),
    /// The samples in the file with this path are to be read and handed to
    /// `ostia_compress_file`.
    ReadDataset(String),
}

/// The place of the first variable with the given name, if there is one.
pub open spec fn variable_at(variables: Seq<Variable>, name: Seq<char>) -> Option<int>
    decreases variables.len(),
{
    if variables.len() == 0 {
        None
    } else {
        match variable_at(variables.drop_last(), name) {
            Some(i) => Some(i),
            None => if variables.last().name@ == name {
                Some(variables.len() - 1)
            } else {
                None
            },
        }
    }
}

/// The place of the first pipeline with the given name, if there is one.
pub open spec fn pipeline_at<X: ExternalStage>(
    pipelines: Seq<NamedPipeline<X>>,
    name: Seq<char>,
) -> Option<int>
    decreases pipelines.len(),
{
    if pipelines.len() == 0 {
        None
    } else {
        match pipeline_at(pipelines.drop_last(), name) {
            Some(i) => Some(i),
            None => if pipelines.last().name@ == name {
                Some(pipelines.len() - 1)
            } else {
                None
            },
        }
    }
}

/// The place that `variable_at` gives holds the name, and no place before it
/// does.
pub proof fn lemma_variable_at(variables: Seq<Variable>, name: Seq<char>)
    ensures
        match variable_at(variables, name) {
            Some(i) => 0 <= i < variables.len() && variables[i].name@ == name && forall|j: int|
                0 <= j < i ==> (#[trigger] variables[j]).name@ != name,
            None => forall|j: int|
                0 <= j < variables.len() ==> (#[trigger] variables[j]).name@ != name,
        },
    decreases variables.len(),
{
    if variables.len() > 0 {
        let front = variables.drop_last();
        lemma_variable_at(front, name);
        match variable_at(front, name) {
            Some(i) => {
                assert(front[i] == variables[i]);
                assert forall|j: int| 0 <= j < i implies (#[trigger] variables[j]).name@
                    != name by {
                    assert(front[j] == variables[j]);
                }
            },
            None => {
                assert forall|j: int| 0 <= j < variables.len() - 1 implies (
                #[trigger] variables[j]).name@ != name by {
                    assert(front[j] == variables[j]);
                }
            },
        }
    }
}

/// What a bound transducer is to the source language: its name, whether
/// every use of it is a copy, and its graph.
pub struct Binding {
    pub name: Seq<char>,
    pub always_copy: bool,
    pub g: GView,
}

/// What the variables are to the source language.
pub open spec fn bindings(variables: Seq<Variable>) -> Seq<Binding> {
    variables.map_values(|v: Variable| Binding { name: v.name@, always_copy: v.always_copy, g: v.g@ })
}

/// The place of the first binding with the given name, if there is one.
pub open spec fn binding_at(bound: Seq<Binding>, name: Seq<char>) -> Option<int>
    decreases bound.len(),
{
    if bound.len() == 0 {
        None
    } else {
        match binding_at(bound.drop_last(), name) {
            Some(i) => Some(i),
            None => if bound.last().name == name {
                Some(bound.len() - 1)
            } else {
                None
            },
        }
    }
}

/// A name is bound among the bindings where it is bound among the variables.
pub proof fn lemma_binding_at(variables: Seq<Variable>, name: Seq<char>)
    ensures
        binding_at(bindings(variables), name) == variable_at(variables, name),
    decreases variables.len(),
{
    if variables.len() > 0 {
        lemma_binding_at(variables.drop_last(), name);
        assert(bindings(variables).drop_last() =~= bindings(variables.drop_last()));
    }
}

/// The place that `binding_at` gives is a place among the bindings.
pub proof fn lemma_binding_at_bound(bound: Seq<Binding>, name: Seq<char>)
    ensures
        binding_at(bound, name) matches Some(i) ==> 0 <= i < bound.len() && bound[i].name == name,
    decreases bound.len(),
{
    if bound.len() > 0 {
        lemma_binding_at_bound(bound.drop_last(), name);
    }
}


/// Whether one of the names is the given name.
pub open spec fn known(names: Seq<String>, name: Seq<char>) -> bool {
    exists|i: int| 0 <= i < names.len() && (#[trigger] names[i])@ == name
}

/// Whether `r` is the outcome of the call of the external function with the
/// given name, where the functions of the given names are known. A name
/// that is not known, or that names no function of the library, is an
/// error. The function `ostiaCompress` takes one list of samples and learns
/// a graph from it; see `learning`. The function `activeLearningFromDataset`
/// takes a list of one sample and asks, by the input of that sample, for the
/// dataset to be read. Other arguments are an error.
pub open spec fn external_outcome(
    names: Seq<String>,
    name: Seq<char>,
    pos: V,
    args: Seq<FuncArg>,
    r: Result<ExternalAction, CompErr>,
) -> bool {
    if !known(names, name) || (name != "ostiaCompress"@ && name
        != "activeLearningFromDataset"@) {
        r matches Err(CompErr::UndefinedExternalFunc(p, n)) && p == pos && n@ == name
    } else if name == "ostiaCompress"@ {
        if args.len() == 1 && args[0] is Informant {
            match r {
                Ok(ExternalAction::Graph(g)) => learning(
                    args[0]->Informant_0@,
                    pos,
                    Ok::<G, CompErr>(g),
                ),
                Ok(_) => false,
                Err(e) => not_learnt(args[0]->Informant_0@, pos, e),
            }
        } else {
            r matches Err(CompErr::IncorrectFunctionArguments(p, m)) && p == pos && m@
                == "Expected a single informant argument"@
        }
    } else {
        if args.len() == 1 && args[0] is Informant && args[0]->Informant_0@.len() == 1 {
            r matches Ok(ExternalAction::ReadDataset(path)) && path@
                == args[0]->Informant_0@[0].0@
        } else {
            r matches Err(CompErr::IncorrectFunctionArguments(p, m)) && p == pos && m@
                == "Expected a single file path argument"@
        }
    }
}

/// The names that are bound while a source text is read: transducers,
/// pipelines, and the external functions that can be called.
pub struct ParserState<X: ExternalStage> {
    pub variables: Vec<Variable>,
    pub pipelines: Vec<NamedPipeline<X>>,
    pub external_functions: Vec<String>,
}

impl<X: ExternalStage> ParserState<X> {
    /// Whether every transducer that is bound to a name is well formed and
    /// small enough to be made a ranged graph, and every pipeline fits its own
    /// bound.
    pub open spec fn wf(&self) -> bool {
        &&& forall|i: int|
            0 <= i < self.variables@.len() ==> (#[trigger] self.variables@[i]).g@.wf()
                && self.variables@[i].g@.nodes.len() < usize::MAX && match self.variables@[i].r {
                Some(rg) => crate::ranged_optimisation::is_ranged_of(self.variables@[i].g@, rg@),
                None => true,
            }
        &&& forall|i: int|
            0 <= i < self.pipelines@.len() ==> (#[trigger] self.pipelines@[i]).pipeline.wf()
    }

    /// The state without names.
    pub fn new() -> (r: Self)
        ensures
            r.wf(),
            r.variables@.len() == 0,
            r.pipelines@.len() == 0,
            r.external_functions@.len() == 0,
    {
        ParserState {
            variables: Vec::new(),
            pipelines: Vec::new(),
            external_functions: Vec::new(),
        }
    }

    /// Makes the external functions of the library known by their names.
    pub fn add_ell_external_functions(&mut self)
        ensures
            final(self).variables == old(self).variables,
            final(self).pipelines == old(self).pipelines,
            final(self).external_functions@.len() == old(self).external_functions@.len() + 2,
            final(self).external_functions@[old(self).external_functions@.len() as int]@
                == "ostiaCompress"@,
            final(self).external_functions@[old(self).external_functions@.len() as int + 1]@
                == "activeLearningFromDataset"@,
    {
        self.external_functions.push("ostiaCompress".to_owned());
        self.external_functions.push("activeLearningFromDataset".to_owned());
    }

    /// The state without names, in which the external functions of the
    /// library are known.
    pub fn new_with_standard_library() -> (r: Self)
        ensures
            r.wf(),
            r.variables@.len() == 0,
            r.pipelines@.len() == 0,
            r.external_functions@.len() == 2,
            r.external_functions@[0]@ == "ostiaCompress"@,
            r.external_functions@[1]@ == "activeLearningFromDataset"@,
    {
        let mut me = Self::new();
        me.add_ell_external_functions();
        me
    }

    /// The place of the variable with the given name.
    pub fn find_variable(&self, name: &String) -> (r: Option<usize>)
        ensures
            r.is_some() == variable_at(self.variables@, name@).is_some(),
            r matches Some(i) ==> variable_at(self.variables@, name@) == Some(i as int) && i
                < self.variables@.len(),
    {
        let mut i: usize = 0;
        while i < self.variables.len()
            invariant
                i <= self.variables.len(),
                variable_at(self.variables@.subrange(0, i as int), name@).is_none(),
            decreases self.variables.len() - i,
        {
            let found = self.variables[i].name.eq(name);
            proof {
                assert(self.variables@.subrange(0, i + 1).drop_last()
                    =~= self.variables@.subrange(0, i as int));
                assert(self.variables@.subrange(0, i + 1).last() == self.variables@[i as int]);
            }
            if found {
                proof {
                    lemma_variable_at_prefix(self.variables@, name@, i + 1);
                }
                return Some(i);
            }
            i = i + 1;
        }
        assert(self.variables@.subrange(0, i as int) =~= self.variables@);
        None
    }

    /// The place of the pipeline with the given name.
    pub fn find_pipeline(&self, name: &String) -> (r: Option<usize>)
        ensures
            r.is_some() == pipeline_at(self.pipelines@, name@).is_some(),
            r matches Some(i) ==> pipeline_at(self.pipelines@, name@) == Some(i as int) && i
                < self.pipelines@.len(),
    {
        let mut i: usize = 0;
        while i < self.pipelines.len()
            invariant
                i <= self.pipelines.len(),
                pipeline_at(self.pipelines@.subrange(0, i as int), name@).is_none(),
            decreases self.pipelines.len() - i,
        {
            let found = self.pipelines[i].name.eq(name);
            proof {
                assert(self.pipelines@.subrange(0, i + 1).drop_last()
                    =~= self.pipelines@.subrange(0, i as int));
                assert(self.pipelines@.subrange(0, i + 1).last() == self.pipelines@[i as int]);
            }
            if found {
                proof {
                    lemma_pipeline_at_prefix(self.pipelines@, name@, i + 1);
                }
                return Some(i);
            }
            i = i + 1;
        }
        assert(self.pipelines@.subrange(0, i as int) =~= self.pipelines@);
        None
    }

    /// The pipeline that is bound to the name.
    pub fn borrow_pipeline(&self, name: &String) -> (r: Option<&Pipeline<X>>)
        ensures
            match pipeline_at(self.pipelines@, name@) {
                Some(i) => r.is_some() && 0 <= i < self.pipelines@.len() && *r.unwrap()
                    == self.pipelines@[i].pipeline,
                None => r.is_none(),
            },
            self.wf() && r.is_some() ==> r.unwrap().wf(),
    {
        match self.find_pipeline(name) {
            Some(i) => Some(&self.pipelines[i].pipeline),
            None => None,
        }
    }

    /// Binds the pipeline to the name. A name that is bound to a pipeline
    /// already is bound anew, which is reported as an error.
    pub fn register_pipeline(&mut self, name: String, pos: V, p: Pipeline<X>) -> (r: Result<
        (),
        CompErr,
    >)
        requires
            old(self).wf(),
            p.wf(),
        ensures
            final(self).wf(),
            final(self).variables == old(self).variables,
            final(self).external_functions == old(self).external_functions,
            match pipeline_at(old(self).pipelines@, name@) {
                Some(i) => (r matches Err(CompErr::DuplicatePipeline(first, second, n)) && first
                    == old(self).pipelines@[i].pos && second == pos && n@ == name@) && final(self).pipelines@.len() == old(self).pipelines@.len() && final(self).pipelines@[i].pipeline
                    == p && final(self).pipelines@[i].pos == pos,
                None => r.is_ok() && final(self).pipelines@.len() == old(self).pipelines@.len() + 1
                    && final(self).pipelines@.last().pipeline == p && final(self).pipelines@.last().name@ == name@,
            },
    {
        match self.find_pipeline(&name) {
            Some(i) => {
                let prev = self.pipelines[i].pos;
                let copy = name.clone();
                self.pipelines[i] = NamedPipeline { name, pos, pipeline: p };
                Err(CompErr::DuplicatePipeline(prev, pos, copy))
            },
            None => {
                self.pipelines.push(NamedPipeline { name, pos, pipeline: p });
                Ok(())
            },
        }
    }

    /// The names of the variables, in the order in which they were bound.
    pub fn iter_variables(&self) -> (r: Vec<String>)
        ensures
            r@.len() == self.variables@.len(),
            forall|i: int| 0 <= i < r@.len() ==> (#[trigger] r@[i])@ == self.variables@[i].name@,
    {
        let mut names: Vec<String> = Vec::new();
        let mut i: usize = 0;
        while i < self.variables.len()
            invariant
                i <= self.variables.len(),
                names@.len() == i,
                forall|k: int| 0 <= k < i ==> (#[trigger] names@[k])@ == self.variables@[k].name@,
            decreases self.variables.len() - i,
        {
            names.push(self.variables[i].name.clone());
            i = i + 1;
        }
        names
    }

    /// The names of the external functions that are known.
    pub fn iter_functions(&self) -> (r: &Vec<String>)
        ensures
            *r == self.external_functions,
    {
        &self.external_functions
    }

    /// Whether an external function is known under the name.
    pub fn knows_function(&self, name: &String) -> (r: bool)
        ensures
            r == exists|i: int|
                0 <= i < self.external_functions@.len() && (
                #[trigger] self.external_functions@[i])@ == name@,
    {
        let mut i: usize = 0;
        while i < self.external_functions.len()
            invariant
                i <= self.external_functions.len(),
                forall|k: int| 0 <= k < i ==> (#[trigger] self.external_functions@[k])@ != name@,
            decreases self.external_functions.len() - i,
        {
            if self.external_functions[i].eq(name) {
                return true;
            }
            i = i + 1;
        }
        false
    }

    /// Calls the external function with the given name; see
    /// `external_outcome`. What the call gives is either a graph or the
    /// request to read a dataset, which the library cannot do itself.
    pub fn external_function(&self, func_name: String, pos: V, args: FuncArgs) -> (r: Result<
        ExternalAction,
        CompErr,
    >)
        ensures
            external_outcome(self.external_functions@, func_name@, pos, args@, r),
            r matches Ok(ExternalAction::Graph(g)) ==> g@.wf(),
    {
        if !self.knows_function(&func_name) {
            return Err(CompErr::UndefinedExternalFunc(pos, func_name));
        }
        if func_name.eq(&"ostiaCompress".to_owned()) {
            match ostia_compress(pos, args) {
                Ok(g) => Ok(ExternalAction::Graph(g)),
                Err(e) => Err(e),
            }
        } else if func_name.eq(&"activeLearningFromDataset".to_owned()) {
            match crate::learn::lazy_dataset::dataset_path(pos, &args) {
                Ok(path) => Ok(ExternalAction::ReadDataset(path)),
                Err(e) => Err(e),
            }
        } else {
            Err(CompErr::UndefinedExternalFunc(pos, func_name))
        }
    }

    /// Binds the transducer to the name. A name that is bound to a transducer
    /// already is bound anew, which is reported as an error.
    pub fn introduce_variable(&mut self, name: String, pos: V, always_copy: bool, g: G) -> (r:
        Result<(), CompErr>)
        requires
            old(self).wf(),
            g@.wf(),
            g@.nodes.len() < usize::MAX,
        ensures
            final(self).wf(),
            final(self).pipelines == old(self).pipelines,
            final(self).external_functions == old(self).external_functions,
            match variable_at(old(self).variables@, name@) {
                Some(i) => (r matches Err(CompErr::DuplicateFunction(first, second, n)) && first
                    == old(self).variables@[i].pos && second == pos && n@ == name@) && final(self).variables@.len() == old(self).variables@.len() && final(self).variables@[i].g
                    == g && final(self).variables@[i].r.is_none() && final(self).variables@[i].name@
                    == name@ && final(self).variables@ == old(self).variables@.update(
                    i,
                    (Variable { name, pos, always_copy, g, r: None }),
                ),
                None => r.is_ok() && final(self).variables@.len() == old(self).variables@.len() + 1
                    && final(self).variables@.last().g == g && final(self).variables@.last().name@
                    == name@ && final(self).variables@.last().pos == pos && final(self).variables@.last().always_copy == always_copy && final(self).variables@.last().r.is_none() && final(self).variables@.subrange(
                    0,
                    old(self).variables@.len() as int,
                ) == old(self).variables@,
            },
    {
        match self.find_variable(&name) {
            Some(i) => {
                let prev = self.variables[i].pos;
                let copy = name.clone();
                let ghost before = self.variables@;
                self.variables[i] = Variable { name, pos, always_copy, g, r: None };
                proof {
                    assert forall|k: int| 0 <= k < self.variables@.len() implies (
                    #[trigger] self.variables@[k]).g@.wf() && self.variables@[k].g@.nodes.len()
                        < usize::MAX && match self.variables@[k].r {
                        Some(rg) => crate::ranged_optimisation::is_ranged_of(
                            self.variables@[k].g@,
                            rg@,
                        ),
                        None => true,
                    } by {
                        if k != i {
                            assert(self.variables@[k] == before[k]);
                        }
                    }
                }
                Err(CompErr::DuplicateFunction(prev, pos, copy))
            },
            None => {
                let ghost before = self.variables@;
                self.variables.push(Variable { name, pos, always_copy, g, r: None });
                proof {
                    assert(self.variables@.subrange(0, before.len() as int) =~= before);
                    assert forall|k: int| 0 <= k < self.variables@.len() implies (
                    #[trigger] self.variables@[k]).g@.wf() && self.variables@[k].g@.nodes.len()
                        < usize::MAX && match self.variables@[k].r {
                        Some(rg) => crate::ranged_optimisation::is_ranged_of(
                            self.variables@[k].g@,
                            rg@,
                        ),
                        None => true,
                    } by {
                        if k < before.len() {
                            assert(self.variables@[k] == before[k]);
                        }
                    }
                }
                Ok(())
            },
        }
    }

    /// Takes the transducer that is bound to the name for use: one that is
    /// always copied is copied and stays; another is given away, and the name
    /// is free again.
    pub fn consume_variable(&mut self, name: String) -> (r: Option<(V, bool, G)>)
        requires
            old(self).wf(),
        ensures
            final(self).wf(),
            final(self).pipelines == old(self).pipelines,
            final(self).external_functions == old(self).external_functions,
            match variable_at(old(self).variables@, name@) {
                Some(i) => r.is_some() && r.unwrap().0 == old(self).variables@[i].pos
                    && r.unwrap().1 == old(self).variables@[i].always_copy && r.unwrap().2@ == old(self).variables@[i].g@ && if old(self).variables@[i].always_copy {
                    final(self).variables == old(self).variables
                } else {
                    final(self).variables@ == old(self).variables@.remove(i)
                },
                None => r.is_none() && final(self).variables == old(self).variables,
            },
    {
        match self.find_variable(&name) {
            Some(i) => {
                if self.variables[i].always_copy {
                    let v = &self.variables[i];
                    Some((v.pos, v.always_copy, v.g.clone()))
                } else {
                    let ghost before = self.variables@;
                    let v = self.variables.remove(i);
                    proof {
                        assert forall|k: int| 0 <= k < self.variables@.len() implies (
                        #[trigger] self.variables@[k]).g@.wf()
                            && self.variables@[k].g@.nodes.len() < usize::MAX
                            && match self.variables@[k].r {
                            Some(rg) => crate::ranged_optimisation::is_ranged_of(
                                self.variables@[k].g@,
                                rg@,
                            ),
                            None => true,
                        } by {
                            if k < i {
                                assert(self.variables@[k] == before[k]);
                            } else {
                                assert(self.variables@[k] == before[k + 1]);
                            }
                        }
                    }
                    Some((v.pos, v.always_copy, v.g))
                }
            },
            None => None,
        }
    }

    /// Frees the name and gives up the transducer that was bound to it. Says
    /// whether the name was bound.
    pub fn delete_variable(&mut self, name: String) -> (r: bool)
        requires
            old(self).wf(),
        ensures
            final(self).wf(),
            final(self).pipelines == old(self).pipelines,
            final(self).external_functions == old(self).external_functions,
            match variable_at(old(self).variables@, name@) {
                Some(i) => r && final(self).variables@ == old(self).variables@.remove(i),
                None => !r && final(self).variables == old(self).variables,
            },
    {
        match self.find_variable(&name) {
            Some(i) => {
                let ghost before = self.variables@;
                let mut v = self.variables.remove(i);
                v.g.delete();
                proof {
                    assert forall|k: int| 0 <= k < self.variables@.len() implies (
                    #[trigger] self.variables@[k]).g@.wf() && self.variables@[k].g@.nodes.len()
                        < usize::MAX && match self.variables@[k].r {
                        Some(rg) => crate::ranged_optimisation::is_ranged_of(
                            self.variables@[k].g@,
                            rg@,
                        ),
                        None => true,
                    } by {
                        if k < i {
                            assert(self.variables@[k] == before[k]);
                        } else {
                            assert(self.variables@[k] == before[k + 1]);
                        }
                    }
                }
                true
            },
            None => false,
        }
    }

    /// A copy of the transducer that is bound to the name.
    pub fn copy_variable(&self, name: &String) -> (r: Option<(V, bool, G)>)
        ensures
            match variable_at(self.variables@, name@) {
                Some(i) => r.is_some() && r.unwrap().0 == self.variables@[i].pos && r.unwrap().1
                    == self.variables@[i].always_copy && r.unwrap().2@ == self.variables@[i].g@,
                None => r.is_none(),
            },
    {
        match self.find_variable(&name) {
            Some(i) => {
                let v = &self.variables[i];
                Some((v.pos, v.always_copy, v.g.clone()))
            },
            None => None,
        }
    }

    /// The transducer that is bound to the name.
    pub fn borrow_variable(&self, name: &String) -> (r: Option<(V, bool, &G)>)
        ensures
            match variable_at(self.variables@, name@) {
                Some(i) => r.is_some() && 0 <= i < self.variables@.len() && r.unwrap().0
                    == self.variables@[i].pos && r.unwrap().1 == self.variables@[i].always_copy
                    && *r.unwrap().2 == self.variables@[i].g,
                None => r.is_none(),
            },
            self.wf() && r.is_some() ==> r.unwrap().2@.wf() && r.unwrap().2@.nodes.len()
                < usize::MAX,
    {
        match self.find_variable(&name) {
            Some(i) => {
                let v = &self.variables[i];
                Some((v.pos, v.always_copy, &v.g))
            },
            None => None,
        }
    }

    /// Makes the ranged graph of the transducer that is bound to the name,
    /// unless it was made before, and says whether the name is bound.
    pub fn optimise(&mut self, name: &String) -> (r: bool)
        requires
            old(self).wf(),
        ensures
            final(self).wf(),
            final(self).pipelines == old(self).pipelines,
            final(self).external_functions == old(self).external_functions,
            final(self).variables@.len() == old(self).variables@.len(),
            r == variable_at(old(self).variables@, name@).is_some(),
            forall|k: int|
                0 <= k < old(self).variables@.len() ==> (#[trigger] final(self).variables@[k]).g
                    == old(self).variables@[k].g && final(self).variables@[k].name == old(self).variables@[k].name && final(self).variables@[k].pos == old(self).variables@[k].pos && final(self).variables@[k].always_copy == old(self).variables@[k].always_copy,
            r ==> final(self).variables@[variable_at(
                old(self).variables@,
                name@,
            ).unwrap()].r.is_some(),
    {
        match self.find_variable(&name) {
            Some(i) => {
                if self.variables[i].r.is_none() {
                    let ghost before = self.variables@;
                    let r = self.variables[i].g.optimise_graph();
                    self.variables[i].r = Some(r);
                    proof {
                        assert forall|k: int| 0 <= k < self.variables@.len() implies (
                        #[trigger] self.variables@[k]).g == before[k].g by {}
                        assert forall|k: int| 0 <= k < self.variables@.len() implies (
                        #[trigger] self.variables@[k]).g@.wf()
                            && self.variables@[k].g@.nodes.len() < usize::MAX
                            && match self.variables@[k].r {
                            Some(rg) => crate::ranged_optimisation::is_ranged_of(
                                self.variables@[k].g@,
                                rg@,
                            ),
                            None => true,
                        } by {
                            if k != i {
                                assert(self.variables@[k] == before[k]);
                            }
                        }
                    }
                }
                true
            },
            None => false,
        }
    }

    /// The ranged graph of the transducer that is bound to the name, if it was
    /// made.
    pub fn get_optimised(&self, name: &String) -> (r: Option<&RangedGraph>)
        ensures
            match variable_at(self.variables@, name@) {
                Some(i) => match self.variables@[i].r {
                    Some(x) => r.is_some() && *r.unwrap() == x,
                    None => r.is_none(),
                },
                None => r.is_none(),
            },
    {
        match self.find_variable(&name) {
            Some(i) => self.variables[i].r.as_ref(),
            None => None,
        }
    }

    /// Frees every name of a transducer.
    pub fn delete_all(&mut self)
        ensures
            final(self).variables@.len() == 0,
            final(self).pipelines == old(self).pipelines,
            final(self).external_functions == old(self).external_functions,
    {
        self.variables.clear();
    }
}

/// Lists of variables with the same names bind every name at the same place.
pub proof fn lemma_variable_at_same_names(a: Seq<Variable>, b: Seq<Variable>, name: Seq<char>)
    requires
        a.len() == b.len(),
        forall|k: int| 0 <= k < a.len() ==> (#[trigger] b[k]).name == a[k].name,
    ensures
        variable_at(a, name) == variable_at(b, name),
    decreases a.len(),
{
    if a.len() > 0 {
        let fa = a.drop_last();
        let fb = b.drop_last();
        assert forall|k: int| 0 <= k < fa.len() implies (#[trigger] fb[k]).name == fa[k].name by {
            assert(fb[k] == b[k]);
        }
        lemma_variable_at_same_names(fa, fb, name);
        assert(b[b.len() - 1].name == a[a.len() - 1].name);
    }
}

/// A name that is found among the first variables is found there among all.
pub proof fn lemma_variable_at_prefix(variables: Seq<Variable>, name: Seq<char>, n: int)
    requires
        0 <= n <= variables.len(),
        variable_at(variables.subrange(0, n), name).is_some(),
    ensures
        variable_at(variables, name) == variable_at(variables.subrange(0, n), name),
    decreases variables.len() - n,
{
    if n < variables.len() {
        assert(variables.subrange(0, n + 1).drop_last() =~= variables.subrange(0, n));
        lemma_variable_at_prefix(variables, name, n + 1);
    } else {
        assert(variables.subrange(0, n) =~= variables);
    }
}

/// A name that is found among the first pipelines is found there among all.
pub proof fn lemma_pipeline_at_prefix<X: ExternalStage>(
    pipelines: Seq<NamedPipeline<X>>,
    name: Seq<char>,
    n: int,
)
    requires
        0 <= n <= pipelines.len(),
        pipeline_at(pipelines.subrange(0, n), name).is_some(),
    ensures
        pipeline_at(pipelines, name) == pipeline_at(pipelines.subrange(0, n), name),
    decreases pipelines.len() - n,
{
    if n < pipelines.len() {
        assert(pipelines.subrange(0, n + 1).drop_last() =~= pipelines.subrange(0, n));
        lemma_pipeline_at_prefix(pipelines, name, n + 1);
    } else {
        assert(pipelines.subrange(0, n) =~= pipelines);
    }
}

} // verus!
