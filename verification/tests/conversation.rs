use aiterm::convo::{
    build_ask_prompt, concat_deltas, join_lines, render_ask_context, render_context_block, trim,
    AgentProfile, Conversation,
};

fn agent(name: &str, sys: &str) -> AgentProfile {
    AgentProfile { name: name.to_string(), system_prompt: sys.to_string() }
}

#[test]
fn trim_removes_surrounding_whitespace() {
    assert_eq!(trim("  hello \n"), "hello");
    assert_eq!(trim("\t\r\n "), "");
    assert_eq!(trim("inner space kept"), "inner space kept");
}

#[test]
fn deltas_concatenate_in_order() {
    let parts = vec!["Hel".to_string(), "lo ".to_string(), "there".to_string()];
    assert_eq!(concat_deltas(&parts), "Hello there");
    assert_eq!(concat_deltas(&vec![]), "");
}

#[test]
fn join_lines_with_newlines() {
    let parts = vec!["a".to_string(), "b".to_string(), "c".to_string()];
    assert_eq!(join_lines(&parts), "a\nb\nc");
    assert_eq!(join_lines(&vec![]), "");
}

#[test]
fn context_blocks_render() {
    let parts = vec!["s1".to_string(), "s2".to_string()];
    assert_eq!(render_context_block(&parts), "CONTEXT:\ns1\ns2\n");
    assert_eq!(render_context_block(&vec![]), "");
    assert_eq!(
        render_ask_context(&parts),
        "Here is some relevant context from the local files:\n\ns1\ns2\n"
    );
    assert_eq!(render_ask_context(&vec![]), "");
}

#[test]
fn ask_prompt_renders() {
    assert_eq!(
        build_ask_prompt("be kind", "CTX", "why?"),
        "be kind\n\nCTX\n\nUser question: why?"
    );
}

#[test]
fn history_renders_opening_and_turns() {
    let agents = vec![agent("Ann", "sys-a"), agent("Ben", "sys-b")];
    let mut c = Conversation::new(agents, "start here".to_string(), 2);
    assert_eq!(
        c.render_history(),
        "The user started the conversation with this prompt: \"start here\""
    );
    c.commit_turn(" reply one ");
    assert_eq!(
        c.render_history(),
        "The user started the conversation with this prompt: \"start here\"\n\nAnn: reply one"
    );
}

#[test]
fn round_robin_attribution() {
    let agents = vec![agent("Ann", "a"), agent("Ben", "b")];
    let mut c = Conversation::new(agents, "go".to_string(), 3);
    assert_eq!(c.next_agent_index(), 0);
    c.commit_turn("one");
    assert_eq!(c.next_agent_index(), 1);
    c.commit_turn("two");
    assert_eq!(c.next_agent_index(), 0);
    c.commit_turn("three");
    assert!(c.is_done());
    // history gained exactly three entries beyond the opening prompt
    assert_eq!(c.history.len(), 4);
    assert_eq!(c.history[0].speaker, "user");
    assert_eq!(c.history[1].speaker, "Ann");
    assert_eq!(c.history[2].speaker, "Ben");
    assert_eq!(c.history[3].speaker, "Ann");
    // the next, unrun speaker would be agents[3 % 2]
    assert_eq!(c.turns_taken % c.agents.len(), 1);
}

#[test]
fn turn_prompt_names_the_agent() {
    let agents = vec![agent("Ann", "be brief")];
    let c = Conversation::new(agents, "hi".to_string(), 1);
    let p = c.next_turn_prompt("CONTEXT:\nx\n");
    let expected = "YOUR ROLE:\nbe brief\n\nCONTEXT:\nx\n\n\nCONVERSATION HISTORY:\n---\n\
        The user started the conversation with this prompt: \"hi\"\
        \n---\n\nINSTRUCTIONS: Your name is Ann. Based on your role and the history, \
        provide your response. Do NOT include your name or role in the response itself. \
        Just give your conversational reply.";
    assert_eq!(p, expected);
}
