//! Prompt templates and conversation history for chat models.

use vstd::prelude::*;
use vstd::string::StringExecFns;

verus! {

/// A message in a conversation: the speaking role and, for completed
/// turns, what it said.
pub struct Message(pub (String, Option<String>));

impl Message {
    pub fn new(message: (String, String)) -> (m: Message)
        ensures
            m.0.0@ == message.0@,
            m.0.1 matches Some(t) && t@ == message.1@,
    {
        Message((message.0, Some(message.1)))
    }
}

/// Separator style for default conversation.
#[derive(Default)]
pub enum SeparatorStyle {
    #[default]
    AddColonSingle,
    AddColonTwo,
    AddColonSpaceSingle,
    NoColonSingle,
    NoColonTwo,
    AddNewLineSingle,
    Llama,
    Llama3,
    Phi,
    Qwen2,
    Gemma,
    Mistral,
    Yi,
    StableLM,
    ChatGLM,
    ChatML,
    ChatIntern,
    Dolly,
    RWKV,
    Phoenix,
    Robin,
    FalconChat,
}

/// What one rendered message contributes to the prompt: the role, a
/// colon-space, the text if the turn is complete, and the separator.
pub open spec fn spec_render_message(m: Message, sep: Seq<char>) -> Seq<char> {
    m.0.0@ + ": "@ + (match m.0.1 {
        Some(t) => t@,
        None => Seq::<char>::empty(),
    }) + sep
}

/// The rendered conversation after the system preamble: each message in
/// order.
pub open spec fn spec_render_messages(ms: Seq<Message>, sep: Seq<char>) -> Seq<char>
    decreases ms.len(),
{
    if ms.len() == 0 {
        Seq::<char>::empty()
    } else {
        spec_render_messages(ms.drop_last(), sep) + spec_render_message(ms.last(), sep)
    }
}

/// A struct for managing prompt templates and conversation history.
pub struct Conversation {
    pub name: String,
    pub system_message: String,
    pub system_template: String,
    pub messages: Vec<Message>,
    pub offset: usize,
    pub sep_style: SeparatorStyle,
    pub stop_criteria: String,
    pub stop_token_ids: Vec<u32>,
    pub roles: (String, String),
    pub sep: String,
    pub sep2: Option<String>,
}

impl Conversation {
    /// The full prompt: system message, separator, then every message.
    pub open spec fn spec_prompt(self) -> Seq<char> {
        self.system_message@ + self.sep@ + spec_render_messages(self.messages@, self.sep@)
    }

    pub fn new(
        name: String,
        system_message: String,
        system_template: String,
        sep_style: SeparatorStyle,
        stop_criteria: String,
        stop_token_ids: Vec<u32>,
        roles: (String, String),
        sep: String,
        sep2: Option<String>,
    ) -> (c: Conversation)
        ensures
            c.system_message@ == system_message@,
            c.sep@ == sep@,
            c.messages@.len() == 0,
            c.stop_token_ids == stop_token_ids,
    {
        Conversation {
            name,
            system_message,
            system_template,
            messages: Vec::new(),
            offset: 0,
            sep_style,
            stop_criteria,
            stop_token_ids,
            roles,
            sep,
            sep2,
        }
    }

    /// Record one more turn.
    pub fn append_message(&mut self, m: Message)
        ensures
            final(self).messages@ == old(self).messages@.push(m),
            final(self).system_message == old(self).system_message,
            final(self).sep == old(self).sep,
    {
        self.messages.push(m);
    }

    /// The stop tokens this template asks the sampler to respect.
    pub fn stop_token_ids(&self) -> (r: &Vec<u32>)
        ensures
            r == &self.stop_token_ids,
    {
        &self.stop_token_ids
    }

    /// Render the whole history into the prompt the model receives.
    pub fn build_prompt(&self) -> (r: String)
        ensures
            r@ == self.spec_prompt(),
    {
        let mut r = String::new();
        r.append(self.system_message.as_str());
        r.append(self.sep.as_str());
        let mut i: usize = 0;
        while i < self.messages.len()
            invariant
                i <= self.messages@.len(),
                r@ == self.system_message@ + self.sep@
                    + spec_render_messages(self.messages@.subrange(0, i as int),
                        self.sep@),
            decreases self.messages@.len() - i,
        {
            let ghost pre = self.messages@.subrange(0, i as int);
            r.append(self.messages[i].0.0.as_str());
            r.append(": ");
            match &self.messages[i].0.1 {
                Some(t) => {
                    r.append(t.as_str());
                },
                None => {},
            }
            r.append(self.sep.as_str());
            proof {
                assert(self.messages@.subrange(0, i + 1).drop_last() =~= pre);
                assert(self.messages@.subrange(0, i + 1).last()
                    == self.messages@[i as int]);
                assert(r@ =~= self.system_message@ + self.sep@
                    + spec_render_messages(self.messages@.subrange(0, i + 1),
                        self.sep@));
            }
            i = i + 1;
        }
        proof {
            assert(self.messages@.subrange(0, self.messages@.len() as int)
                =~= self.messages@);
        }
        r
    }
}

} // verus!
