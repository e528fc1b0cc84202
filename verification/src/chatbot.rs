//! The pure parts of a chatbot that keeps one conversation per user on disk.
use vstd::prelude::*;

verus! {

/// Who wrote a message of a conversation.
#[derive(Clone, Copy, Debug, PartialEq, Eq, Structural)]
pub enum MessageRole {
    /// The instructions that set up the assistant.
    SystemPrompt,
    /// A message from the user.
    UserMessage,
    /// An answer from the model.
    ModelAnswer,
}

/// The name of the file that holds `username`'s conversation: the name followed by `.txt`.
pub fn session_filename(username: &String) -> (name: String)
    ensures
        name@ == username@ + ".txt"@,
{
    let mut name = username.clone();
    name.append(".txt");
    name
}

/// The reply a user gets: the model's answer, or an apology when the model gave none.
pub fn reply_or_apology(answer: Option<String>) -> (reply: String)
    ensures
        reply@ == match answer {
            Some(a) => a@,
            None => "Sorry, I could not generate a response."@,
        },
{
    match answer {
        Some(a) => a,
        None => String::from_str("Sorry, I could not generate a response."),
    }
}

/// The contents of the messages that are not system prompts, in order.
pub open spec fn visible_contents(messages: Seq<(MessageRole, Seq<char>)>) -> Seq<Seq<char>>
    decreases messages.len(),
{
    if messages.len() == 0 {
        Seq::empty()
    } else {
        let kept = visible_contents(messages.drop_last());
        if messages.last().0 == MessageRole::SystemPrompt {
            kept
        } else {
            kept.push(messages.last().1)
        }
    }
}

/// The history of two stretches of conversation, one after the other, is the history of
/// the first followed by that of the second: nothing is dropped or reordered across them.
pub proof fn lemma_visible_contents_append(
    first: Seq<(MessageRole, Seq<char>)>,
    second: Seq<(MessageRole, Seq<char>)>,
)
    ensures
        visible_contents(first + second) == visible_contents(first) + visible_contents(second),
    decreases second.len(),
{
    if second.len() == 0 {
        assert(first + second =~= first);
        assert(visible_contents(first) + visible_contents(second) =~= visible_contents(first));
    } else {
        lemma_visible_contents_append(first, second.drop_last());
        assert((first + second).drop_last() =~= first + second.drop_last());
        assert((first + second).last() == second.last());
        let a = visible_contents(first);
        let b = visible_contents(second.drop_last());
        assert((a + b).push(second.last().1) =~= a + b.push(second.last().1));
    }
}

/// A single message shows in the history exactly when it is not a system prompt, as its
/// text; with `lemma_visible_contents_append`, every message that is not a system prompt
/// shows, in order, so the history holds one entry per such message.
pub proof fn lemma_visible_contents_one(m: (MessageRole, Seq<char>))
    ensures
        visible_contents(seq![m]) == if m.0 == MessageRole::SystemPrompt {
            Seq::<Seq<char>>::empty()
        } else {
            seq![m.1]
        },
        visible_contents(seq![m]).len() == if m.0 == MessageRole::SystemPrompt { 0int } else { 1int },
{
    assert(seq![m].drop_last() =~= Seq::<(MessageRole, Seq<char>)>::empty());
    assert(visible_contents(seq![m].drop_last()) == Seq::<Seq<char>>::empty());
    assert(seq![m].last() == m);
    assert(Seq::<Seq<char>>::empty().push(m.1) =~= seq![m.1]);
}

/// The history that a user sees: the contents of every message except the system
/// prompts, in order.
pub fn visible_history(messages: &Vec<(MessageRole, String)>) -> (history: Vec<String>)
    ensures
        history@.map_values(|s: String| s@) == visible_contents(
            messages@.map_values(|m: (MessageRole, String)| (m.0, m.1@)),
        ),
{
    let ghost all = messages@.map_values(|m: (MessageRole, String)| (m.0, m.1@));
    let mut history: Vec<String> = Vec::new();
    let mut i: usize = 0;
    while i < messages.len()
        invariant
            all == messages@.map_values(|m: (MessageRole, String)| (m.0, m.1@)),
            i <= messages@.len(),
            history@.map_values(|s: String| s@) == visible_contents(all.take(i as int)),
        decreases messages@.len() - i,
    {
        let ghost before = history@;
        assert(all.take(i + 1).drop_last() =~= all.take(i as int));
        assert(all.take(i + 1).last() == (messages@[i as int].0, messages@[i as int].1@));
        if messages[i].0 != MessageRole::SystemPrompt {
            history.push(messages[i].1.clone());
            assert(history@.map_values(|s: String| s@) =~= before.map_values(|s: String| s@).push(
                messages@[i as int].1@,
            ));
        }
        i = i + 1;
    }
    assert(all.take(messages@.len() as int) =~= all);
    history
}

} // verus!
