//! Conversation transcripts and the engagement count.
//!
//! A per-identity transcript is an ordered list of chat turns, each with a
//! role and a content text. The transcript both feeds the conversational
//! service and carries the engagement measure: the number of user-authored
//! turns, which gates credential issuance.

use vstd::prelude::*;
use vstd::string::StringExecFns;

verus! {

/// One chat turn: who authored it and what it says.
pub struct ChatMessage {
    pub role: String,
    pub content: String,
}

/// Mathematical shape of a chat turn.
pub ghost struct ChatMessageView {
    pub role: Seq<char>,
    pub content: Seq<char>,
}

impl View for ChatMessage {
    type V = ChatMessageView;

    open spec fn view(&self) -> ChatMessageView {
        ChatMessageView { role: self.role@, content: self.content@ }
    }
}

/// The views of a transcript.
pub open spec fn message_views(s: Seq<ChatMessage>) -> Seq<ChatMessageView> {
    s.map(|i: int, m: ChatMessage| m@)
}

/// The request body sent to the chat-completions service.
pub struct ChatCompletionsBody {
    pub model: String,
    pub messages: Vec<ChatMessage>,
}

/// Assemble a chat-completions request around the transcript, with the
/// fixed model name.
pub fn create_chat_completions_body(messages: Vec<ChatMessage>) -> (r: ChatCompletionsBody)
    ensures
        r.model@ == "gpt-4o-mini-2024-07-18"@,
        message_views(r.messages@) == message_views(messages@),
{
    ChatCompletionsBody { model: String::from_str("gpt-4o-mini-2024-07-18"), messages }
}

/// How many turns of a transcript are user-authored.
pub open spec fn spec_user_turns(s: Seq<ChatMessageView>) -> nat
    decreases s.len(),
{
    if s.len() == 0 {
        0
    } else {
        spec_user_turns(s.drop_last()) + if s.last().role == "user"@ {
            1nat
        } else {
            0nat
        }
    }
}

/// Count the user-authored turns of a transcript.
pub fn count_user_turns(messages: &Vec<ChatMessage>) -> (r: u64)
    requires
        messages@.len() <= u64::MAX,
    ensures
        r as nat == spec_user_turns(message_views(messages@)),
{
    let user = String::from_str("user");
    let n = messages.len();
    let mut count: u64 = 0;
    let mut i: usize = 0;
    while i < n
        invariant
            i <= n,
            n == messages@.len() <= u64::MAX,
            user@ == "user"@,
            count as nat == spec_user_turns(message_views(messages@).take(i as int)),
            count <= i,
        decreases n - i,
    {
        proof {
            let mv = message_views(messages@);
            assert(mv.take(i + 1).drop_last() =~= mv.take(i as int));
            assert(mv.take(i + 1).last() == mv[i as int]);
        }
        if messages[i].role.eq(&user) {
            count = count + 1;
        }
        i = i + 1;
    }
    proof {
        assert(message_views(messages@).take(n as int) =~= message_views(messages@));
    }
    count
}

/// A fresh transcript: the narrative system turn alone.
pub fn start_conversation(system_content: &str) -> (r: Vec<ChatMessage>)
    ensures
        message_views(r@).len() == 1,
        message_views(r@)[0].role == "system"@,
        message_views(r@)[0].content == system_content@,
        spec_user_turns(message_views(r@)) == 0,
{
    let mut r: Vec<ChatMessage> = Vec::new();
    r.push(
        ChatMessage { role: String::from_str("system"), content: system_content.to_owned() },
    );
    proof {
        let mv = message_views(r@);
        assert(mv.len() == 1);
        assert(mv[0] == r@[0]@);
        assert(mv.last() == mv[0]);
        assert(mv.drop_last() =~= Seq::<ChatMessageView>::empty());
        assert(spec_user_turns(Seq::<ChatMessageView>::empty()) == 0);
        proof_roles_differ();
    }
    r
}

/// The literals "system", "assistant" and "user" name different roles.
proof fn proof_roles_differ()
    ensures
        "system"@ != "user"@,
        "assistant"@ != "user"@,
{
    reveal_strlit("system");
    reveal_strlit("assistant");
    reveal_strlit("user");
    assert("system"@.len() != "user"@.len());
    assert("assistant"@.len() != "user"@.len());
}

/// Append the user's turn: the transcript grows by one user-authored turn,
/// so the engagement count rises by exactly one.
pub fn append_user_turn(messages: &mut Vec<ChatMessage>, content: &str)
    ensures
        message_views(final(messages)@) == message_views(old(messages)@).push(
            ChatMessageView { role: "user"@, content: content@ },
        ),
        spec_user_turns(message_views(final(messages)@)) == spec_user_turns(
            message_views(old(messages)@),
        ) + 1,
{
    messages.push(ChatMessage { role: String::from_str("user"), content: content.to_owned() });
    proof {
        let mv = message_views(messages@);
        assert(mv =~= message_views(old(messages)@).push(
            ChatMessageView { role: "user"@, content: content@ },
        ));
        assert(mv.drop_last() =~= message_views(old(messages)@));
    }
}

/// Append the assistant's reply: the engagement count does not move.
pub fn append_assistant_turn(messages: &mut Vec<ChatMessage>, content: &str)
    ensures
        message_views(final(messages)@) == message_views(old(messages)@).push(
            ChatMessageView { role: "assistant"@, content: content@ },
        ),
        spec_user_turns(message_views(final(messages)@)) == spec_user_turns(
            message_views(old(messages)@),
        ),
{
    messages.push(
        ChatMessage { role: String::from_str("assistant"), content: content.to_owned() },
    );
    proof {
        let mv = message_views(messages@);
        assert(mv =~= message_views(old(messages)@).push(
            ChatMessageView { role: "assistant"@, content: content@ },
        ));
        assert(mv.drop_last() =~= message_views(old(messages)@));
        proof_roles_differ();
    }
}

/// An incoming message worth processing: a request with an empty message
/// text is refused before any collaborator is consulted.
pub fn is_empty_message(content: &str) -> (r: bool)
    ensures
        r == (content@.len() == 0),
{
    content.is_empty()
}

/// Frame the stored narrative context as the system prompt.
pub fn build_system_prompt(context: &str) -> (r: String)
    ensures
        r@ == "You are Qawakun, a narrative guide in this interactive experience.\n"@ + context@
            + "\nStay in character and maintain narrative consistency."@,
{
    let mut r = String::from_str(
        "You are Qawakun, a narrative guide in this interactive experience.\n",
    );
    r.append(context);
    r.append("\nStay in character and maintain narrative consistency.");
    proof {
        assert(r@ =~= "You are Qawakun, a narrative guide in this interactive experience.\n"@
            + context@ + "\nStay in character and maintain narrative consistency."@);
    }
    r
}

/// The most recent `count` entries of a stored history, oldest first.
pub fn recent_messages(messages: &Vec<String>, count: usize) -> (r: Vec<String>)
    ensures
        r@ == if messages@.len() <= count {
            messages@
        } else {
            messages@.skip(messages@.len() - count as int)
        },
{
    let n = messages.len();
    let start = if n <= count {
        0
    } else {
        n - count
    };
    let mut r: Vec<String> = Vec::new();
    let mut i: usize = start;
    while i < n
        invariant
            start <= i <= n,
            n == messages@.len(),
            r@ == messages@.subrange(start as int, i as int),
        decreases n - i,
    {
        r.push(messages[i].clone());
        proof {
            assert(messages@.subrange(start as int, i + 1) =~= messages@.subrange(
                start as int,
                i as int,
            ).push(messages@[i as int]));
        }
        i = i + 1;
    }
    proof {
        if messages@.len() <= count {
            assert(messages@.subrange(0, n as int) =~= messages@);
        } else {
            assert(messages@.subrange(start as int, n as int) =~= messages@.skip(
                messages@.len() - count as int,
            ));
        }
    }
    r
}

} // verus!
