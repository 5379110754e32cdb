use vstd::prelude::*;
use vstd::string::StringExecFns;

verus! {

/// Command-line inputs: the path of the configuration document and an
/// optional override for the output directory.
pub struct Cli {
    pub config: String,
    pub output: Option<String>,
}

impl Cli {
    /// Checks the caller-supplied fact of whether the configuration path
    /// exists on disk; absence is reported as an error before any
    /// generation begins.
    pub fn validate_config_exists(&self, config_present: bool) -> (r: Result<(), String>)
        ensures
            r is Ok <==> config_present,
            r matches Err(e) ==> e@ == "Config file not found: '"@ + self.config@
                + "'. Please provide a valid path."@,
    {
        if config_present {
            Ok(())
        } else {
            let mut msg = String::from_str("Config file not found: '");
            msg.append(self.config.as_str());
            msg.append("'. Please provide a valid path.");
            Err(msg)
        }
    }
}

} // verus!
