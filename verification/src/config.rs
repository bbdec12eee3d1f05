//! Configuration of the target and of the fuzzers whose traces are loaded.

use vstd::prelude::*;

verus! {

/// The program under test and which of its sources take part in the model.
#[derive(Debug)]
pub struct TargetConfig {
    pub target_path: String,
    pub target_source_code_path: String,
    pub target_include_filter: Vec<String>,
    pub allowed_extensions: Vec<String>,
}

impl TargetConfig {
    pub fn new() -> (r: TargetConfig)
        ensures
            r.target_path@ == Seq::<char>::empty(),
            r.target_source_code_path@ == Seq::<char>::empty(),
            r.target_include_filter@ == Seq::<String>::empty(),
            r.allowed_extensions@ == Seq::<String>::empty(),
    {
        TargetConfig {
            target_path: String::new(),
            target_source_code_path: String::new(),
            target_include_filter: Vec::new(),
            allowed_extensions: Vec::new(),
        }
    }
}

impl Default for TargetConfig {
    fn default() -> (r: Self)
        ensures
            r.target_path@ == Seq::<char>::empty(),
            r.target_source_code_path@ == Seq::<char>::empty(),
            r.target_include_filter@ == Seq::<String>::empty(),
            r.allowed_extensions@ == Seq::<String>::empty(),
    {
        Self::new()
    }
}

/// One fuzzer configuration: its id, its name and where its files are.
#[derive(Debug)]
pub struct FuzzerConfig {
    pub fuzzer_configuration: String,
    pub traces_directory_path: String,
    pub inputs_directory_path: String,
    pub fuzzer_configuration_id: u32,
}

impl Clone for FuzzerConfig {
    fn clone(&self) -> (r: Self)
        ensures
            r == *self,
    {
        FuzzerConfig {
            fuzzer_configuration: self.fuzzer_configuration.clone(),
            traces_directory_path: self.traces_directory_path.clone(),
            inputs_directory_path: self.inputs_directory_path.clone(),
            fuzzer_configuration_id: self.fuzzer_configuration_id,
        }
    }
}

/// The whole configuration: one target, any number of fuzzers.
#[derive(Debug)]
pub struct UserConfig {
    pub target_info: TargetConfig,
    pub fuzzer_infos: Vec<FuzzerConfig>,
}

impl UserConfig {
    pub fn new() -> (r: UserConfig)
        ensures
            r.target_info.target_path@ == Seq::<char>::empty(),
            r.target_info.target_source_code_path@ == Seq::<char>::empty(),
            r.target_info.target_include_filter@ == Seq::<String>::empty(),
            r.target_info.allowed_extensions@ == Seq::<String>::empty(),
            r.fuzzer_infos@ == Seq::<FuzzerConfig>::empty(),
    {
        UserConfig { target_info: TargetConfig::new(), fuzzer_infos: Vec::new() }
    }
}

impl Default for UserConfig {
    fn default() -> (r: Self)
        ensures
            r.target_info.target_path@ == Seq::<char>::empty(),
            r.target_info.target_source_code_path@ == Seq::<char>::empty(),
            r.target_info.target_include_filter@ == Seq::<String>::empty(),
            r.target_info.allowed_extensions@ == Seq::<String>::empty(),
            r.fuzzer_infos@ == Seq::<FuzzerConfig>::empty(),
    {
        Self::new()
    }
}

} // verus!
