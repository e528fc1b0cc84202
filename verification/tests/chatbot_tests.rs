use rust_projects::chatbot::{reply_or_apology, session_filename, visible_history, MessageRole};

#[test]
fn session_file_is_named_after_the_user() {
    assert_eq!(session_filename(&"bob".to_string()), "bob.txt");
    assert_eq!(session_filename(&"".to_string()), ".txt");
}

#[test]
fn history_hides_system_prompts() {
    let messages = vec![
        (MessageRole::SystemPrompt, "act like a pirate".to_string()),
        (MessageRole::UserMessage, "hello".to_string()),
        (MessageRole::ModelAnswer, "arr".to_string()),
        (MessageRole::SystemPrompt, "again".to_string()),
        (MessageRole::UserMessage, "bye".to_string()),
    ];
    assert_eq!(visible_history(&messages), vec!["hello", "arr", "bye"]);
    assert!(visible_history(&Vec::new()).is_empty());
}

#[test]
fn a_missing_answer_gets_an_apology() {
    assert_eq!(reply_or_apology(Some("Arr".to_string())), "Arr");
    assert_eq!(reply_or_apology(None), "Sorry, I could not generate a response.");
}
