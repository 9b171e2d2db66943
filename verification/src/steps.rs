//! The step protocols the run reads: questions, answers and expiries.

use crate::json::Json;

use vstd::prelude::*;
use vstd::string::*;

verus! {

/// One choice of a question.
#[derive(Debug)]
pub struct QuestionOption {
    pub key: String,
    pub label: String,
}

/// A question a step asks the host.
#[derive(Debug)]
pub struct Question {
    pub id: String,
    pub kind: Option<String>,
    pub text: String,
    pub options: Vec<QuestionOption>,
    /// Whether a text answer is a secret.
    pub sensitive: bool,
}

impl Question {
    /// The name a sensitive answer is registered under.
    pub fn secret_name(&self) -> (name: String)
        ensures
            name@ == "answer:"@ + self.id@,
    {
        let prefix = "answer:".to_owned();
        prefix.concat(self.id.as_str())
    }
}

/// A step's own answer deadline that passed.
#[derive(Debug)]
pub struct QuestionExpired {
    pub question: String,
    pub waited_ms: u64,
    pub default: Option<Json>,
}

/// What was answered to a question.
#[derive(Debug)]
pub struct Answer {
    /// The question the answer is bound to.
    pub question: Option<String>,
    pub choice: Option<String>,
    pub choices: Vec<String>,
    pub text: Option<Json>,
}

} // verus!
