//! Decisions of the conversational retrieval front end.
//!
//! The chat loop itself talks to a terminal and a remote language model
//! and lives outside the library; the model selection, prompt assembly
//! and command parsing it needs are decided here.

use vstd::prelude::*;
use crate::chars::seq_trim;
use crate::chars::chars_of;
use crate::chars::trim_chars;
use crate::chars::string_of;
use crate::errors::PortableBrainsError;
use crate::format::str_ieq;
use crate::normalize::join_with;

verus! {

/// The well-known chat models the front end can preconfigure.
#[derive(Debug, Clone, Copy, PartialEq, Eq, Structural)]
pub enum AIModel {
    Gpt4,
    Gpt4Turbo,
    Gpt35Turbo,
    MistralLarge,
    MistralMedium,
    MistralSmall,
    /// A model named explicitly by the user.
    Custom,
}

impl AIModel {
    /// The wire name of the model; empty for a custom model.
    pub fn model_name(&self) -> (r: &'static str)
        ensures
            match *self {
                AIModel::Gpt4 => r@ == "gpt-4"@,
                AIModel::Gpt4Turbo => r@ == "gpt-4-turbo"@,
                AIModel::Gpt35Turbo => r@ == "gpt-3.5-turbo"@,
                AIModel::MistralLarge => r@ == "mistral-large-latest"@,
                AIModel::MistralMedium => r@ == "mistral-medium-latest"@,
                AIModel::MistralSmall => r@ == "mistral-small-latest"@,
                AIModel::Custom => r@ == ""@,
            },
    {
        match self {
            AIModel::Gpt4 => "gpt-4",
            AIModel::Gpt4Turbo => "gpt-4-turbo",
            AIModel::Gpt35Turbo => "gpt-3.5-turbo",
            AIModel::MistralLarge => "mistral-large-latest",
            AIModel::MistralMedium => "mistral-medium-latest",
            AIModel::MistralSmall => "mistral-small-latest",
            AIModel::Custom => "",
        }
    }

    /// The default endpoint for the model's service; empty for a custom
    /// model, which must name its own endpoint.
    pub fn suggested_endpoint(&self) -> (r: &'static str)
        ensures
            match *self {
                AIModel::Gpt4 | AIModel::Gpt4Turbo | AIModel::Gpt35Turbo => r@
                    == "https://api.openai.com/v1/chat/completions"@,
                AIModel::MistralLarge | AIModel::MistralMedium | AIModel::MistralSmall => r@
                    == "https://api.mistral.ai/v1/chat/completions"@,
                AIModel::Custom => r@ == ""@,
            },
    {
        match self {
            AIModel::Gpt4 | AIModel::Gpt4Turbo | AIModel::Gpt35Turbo =>
                "https://api.openai.com/v1/chat/completions",
            AIModel::MistralLarge | AIModel::MistralMedium | AIModel::MistralSmall =>
                "https://api.mistral.ai/v1/chat/completions",
            AIModel::Custom => "",
        }
    }
}

/// Resolve the endpoint and model name the front end will use.  A
/// preconfigured model supplies both, an explicit endpoint wins over the
/// suggestion, and a custom model (or none) without an endpoint is
/// rejected.
pub fn resolve_endpoint_and_model(
    ai_model: Option<AIModel>,
    endpoint: Option<String>,
    model: String,
) -> (r: Result<(String, String), PortableBrainsError>)
    ensures
        match ai_model {
            Some(m) => (match endpoint {
                Some(e) => r matches Ok(p) && p.0@ == e@,
                None => if m is Custom {
                    r is Err
                } else {
                    r is Ok
                },
            }) && (r matches Ok(p) ==> p.1@ == (if m is Custom {
                model@
            } else {
                match m {
                    AIModel::Gpt4 => "gpt-4"@,
                    AIModel::Gpt4Turbo => "gpt-4-turbo"@,
                    AIModel::Gpt35Turbo => "gpt-3.5-turbo"@,
                    AIModel::MistralLarge => "mistral-large-latest"@,
                    AIModel::MistralMedium => "mistral-medium-latest"@,
                    AIModel::MistralSmall => "mistral-small-latest"@,
                    AIModel::Custom => model@,
                }
            })),
            None => match endpoint {
                Some(e) => r matches Ok(p) && p.0@ == e@ && p.1@ == model@,
                None => r is Err,
            },
        },
{
    match ai_model {
        Some(m) => {
            let suggested = m.suggested_endpoint();
            let chosen = match endpoint {
                Some(e) => e,
                None => {
                    match m {
                        AIModel::Custom => {
                            return Err(
                                PortableBrainsError::StorageError {
                                    cause: String::from_str(
                                        "a custom model requires an explicit endpoint",
                                    ),
                                },
                            );
                        },
                        _ => (),
                    }
                    String::from_str(suggested)
                },
            };
            let name = match m {
                AIModel::Custom => model,
                _ => String::from_str(m.model_name()),
            };
            Ok((chosen, name))
        },
        None => match endpoint {
            Some(e) => Ok((e, model)),
            None => Err(
                PortableBrainsError::StorageError {
                    cause: String::from_str("an endpoint is required without a preset model"),
                },
            ),
        },
    }
}

/// The view of the fixed prompt head.
pub open spec fn prompt_head_view() -> Seq<char> {
    "You are a helpful AI assistant with access to a knowledge base. Use the following context to answer the user's question. If the context doesn't contain relevant information, say so politely.\n\nContext:\n"@
}

/// The fixed head of the system prompt.
pub fn prompt_head() -> (r: &'static str)
    ensures
        r@ == prompt_head_view(),
{
    "You are a helpful AI assistant with access to a knowledge base. Use the following context to answer the user's question. If the context doesn't contain relevant information, say so politely.\n\nContext:\n"
}

/// Assemble the system prompt: the fixed head followed by the retrieved
/// fragments separated by blank lines, or a fixed notice when nothing was
/// retrieved.
pub fn build_system_prompt(context: &Vec<String>) -> (r: String)
    ensures
        context@.len() == 0 ==> r@ == prompt_head_view() + "No relevant documents found."@,
        context@.len() > 0 ==> r@ == prompt_head_view() + join_with(
            seq!['\n', '\n'],
            context.deep_view(),
        ),
{
    let mut out = String::from_str(prompt_head());
    proof {
        assert(out@ == prompt_head_view());
    }
    if context.len() == 0 {
        out.append("No relevant documents found.");
        return out;
    }
    let mut k: usize = 0;
    let ghost head = out@;
    while k < context.len()
        invariant
            k <= context@.len(),
            context@.len() > 0,
            out@ == head + join_with(seq!['\n', '\n'], context.deep_view().take(k as int)),
        decreases context@.len() - k,
    {
        proof {
            assert(context.deep_view().take(k + 1).drop_last() =~= context.deep_view().take(
                k as int,
            ));
            assert(context.deep_view().take(k + 1).last() == context.deep_view()[k as int]);
            assert(context.deep_view()[k as int] == context@[k as int]@);
            reveal_strlit("\n\n");
        }
        if k > 0 {
            out.append("\n\n");
            proof {
                assert("\n\n"@ =~= seq!['\n', '\n']);
            }
        } else {
            proof {
                assert(join_with(seq!['\n', '\n'], context.deep_view().take(1))
                    == context.deep_view()[0]);
                assert(join_with(seq!['\n', '\n'], context.deep_view().take(0)) =~= Seq::<
                    char,
                >::empty());
            }
        }
        out.append(context[k].as_str());
        proof {
            assert(out@ =~= head + join_with(
                seq!['\n', '\n'],
                context.deep_view().take(k + 1),
            ));
        }
        k = k + 1;
    }
    proof {
        assert(context.deep_view().take(context@.len() as int) =~= context.deep_view());
    }
    out
}

/// Clamp a requested result count to the accepted range, falling back to
/// the default of 5 when the request is zero or above 20.
pub fn clamp_results(requested: usize) -> (r: usize)
    ensures
        r == (if requested == 0 || requested > 20 {
            5usize
        } else {
            requested
        }),
{
    if requested == 0 || requested > 20 {
        5
    } else {
        requested
    }
}

/// What the chat loop does with one input line.
#[derive(Debug, Clone, Copy, PartialEq, Eq, Structural)]
pub enum ChatCommand {
    /// Blank input: prompt again.
    Empty,
    /// Leave the loop.
    Quit,
    /// Show the command help.
    Help,
    /// Treat the line as a retrieval query.
    Query,
}

/// Classify one trimmed input line of the chat loop; `quit`, `exit` and
/// `help` are matched ignoring ASCII case.
pub fn parse_command(line: &str) -> (r: ChatCommand)
    ensures
        r == (if seq_trim(line@).len() == 0 {
            ChatCommand::Empty
        } else if str_ieq(seq_trim(line@), "quit"@) || str_ieq(seq_trim(line@), "exit"@) {
            ChatCommand::Quit
        } else if str_ieq(seq_trim(line@), "help"@) {
            ChatCommand::Help
        } else {
            ChatCommand::Query
        }),
{
    let v = chars_of(line);
    let t = trim_chars(&v);
    if t.len() == 0 {
        return ChatCommand::Empty;
    }
    let ts = string_of(&t);
    if crate::format::ascii_ieq(ts.as_str(), "quit") || crate::format::ascii_ieq(
        ts.as_str(),
        "exit",
    ) {
        ChatCommand::Quit
    } else if crate::format::ascii_ieq(ts.as_str(), "help") {
        ChatCommand::Help
    } else {
        ChatCommand::Query
    }
}

} // verus!
