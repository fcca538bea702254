use vstd::prelude::*;

verus! {

/// Runtime settings for the agent: the model to talk to, the workspace
/// directory mounted into the sandbox, and the chat endpoint of the
/// model backend.
#[derive(Clone, Debug)]
pub struct Config {
    pub model: String,
    pub workspace_path: String,
    pub ollama_url: String,
}

impl Default for Config {
    /// The configuration used when no settings file exists.
    fn default() -> (c: Config)
        ensures
            c.model@ == "qwen2.5-coder:latest"@,
            c.workspace_path@ == "./workspace"@,
            c.ollama_url@ == "http://localhost:11434/api/chat"@,
    {
        Config {
            model: "qwen2.5-coder:latest".to_owned(),
            workspace_path: "./workspace".to_owned(),
            ollama_url: "http://localhost:11434/api/chat".to_owned(),
        }
    }
}

} // verus!
