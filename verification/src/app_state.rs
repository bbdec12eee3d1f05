//! The model that queries are answered from: the inputs and the source
//! index, as they are once loading has ended.

use crate::inputs_database::InputsDatabase;
use crate::sut_database::SUT;
use vstd::prelude::*;

verus! {

/// The loaded model.
pub struct AppState {
    inputs_db: InputsDatabase,
    sut_db: SUT,
}

impl AppState {
    /// The inputs of the model.
    pub closed spec fn inputs(&self) -> InputsDatabase {
        self.inputs_db
    }

    /// The source index of the model.
    pub closed spec fn sut(&self) -> SUT {
        self.sut_db
    }

    /// Both parts of the model are in order.
    pub open spec fn wf(&self) -> bool {
        self.inputs().wf() && self.sut().wf()
    }

    /// The inputs of the model.
    pub fn get_inputs_db(&self) -> (r: &InputsDatabase)
        ensures
            *r == self.inputs(),
    {
        &self.inputs_db
    }

    /// The source index of the model.
    pub fn get_sut_db(&self) -> (r: &SUT)
        ensures
            *r == self.sut(),
    {
        &self.sut_db
    }

    /// The model made of `inputs` and `sut`.
    pub fn new(inputs: InputsDatabase, sut: SUT) -> (r: Self)
        ensures
            r.inputs() == inputs,
            r.sut() == sut,
    {
        AppState { inputs_db: inputs, sut_db: sut }
    }
}

} // verus!
