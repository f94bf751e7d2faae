//! Conversation orchestration: prompt assembly for single-turn asks, and
//! the round-robin turn state of a multi-agent conversation over one
//! shared history.

use vstd::prelude::*;
use vstd::string::*;

verus! {

/// A named configuration of a conversational role.
pub struct Persona {
    pub name: String,
    pub model: String,
    pub system_prompt: String,
    pub context_paths: Vec<String>,
}

/// One message of a model exchange.
pub struct Message {
    pub role: String,
    pub content: String,
}

/// What the orchestrator needs of one conversation participant.
pub struct AgentProfile {
    pub name: String,
    pub system_prompt: String,
}

/// One speaker-tagged utterance of the shared history.
pub struct HistoryEntry {
    pub speaker: String,
    pub text: String,
}

/// A character the trimming of a response removes at either end.
pub open spec fn is_space(c: char) -> bool {
    c == ' ' || c == '\n' || c == '\t' || c == '\r'
}

/// The sequence with its leading whitespace removed.
pub open spec fn trim_front(s: Seq<char>) -> Seq<char>
    decreases s.len(),
{
    if s.len() > 0 && is_space(s.first()) {
        trim_front(s.drop_first())
    } else {
        s
    }
}

/// The sequence with its trailing whitespace removed.
pub open spec fn trim_back(s: Seq<char>) -> Seq<char>
    decreases s.len(),
{
    if s.len() > 0 && is_space(s.last()) {
        trim_back(s.drop_last())
    } else {
        s
    }
}

/// The sequence with whitespace removed at both ends.
pub open spec fn trim_spec(s: Seq<char>) -> Seq<char> {
    trim_back(trim_front(s))
}

/// The parts joined by the separator, in order.
pub open spec fn join_with(v: Seq<Seq<char>>, sep: Seq<char>) -> Seq<char>
    decreases v.len(),
{
    if v.len() == 0 {
        Seq::<char>::empty()
    } else if v.len() == 1 {
        v[0]
    } else {
        join_with(v.drop_last(), sep) + sep + v.last()
    }
}

/// All parts concatenated in order.
pub open spec fn concat_views(v: Seq<Seq<char>>) -> Seq<char>
    decreases v.len(),
{
    if v.len() == 0 {
        Seq::<char>::empty()
    } else {
        concat_views(v.drop_last()) + v.last()
    }
}

/// The opening line of a history: the user's prompt, quoted.
pub open spec fn opening_line(prompt: Seq<char>) -> Seq<char> {
    "The user started the conversation with this prompt: \""@ + prompt + "\""@
}

/// One agent turn as it appears in the rendered history.
pub open spec fn turn_line(e: HistoryEntry) -> Seq<char> {
    "\n\n"@ + e.speaker@ + ": "@ + e.text@
}

/// The whole history rendered to flat text: the quoted opening prompt,
/// then each turn on its own paragraph, speaker-tagged.
pub open spec fn history_text(h: Seq<HistoryEntry>) -> Seq<char>
    decreases h.len(),
{
    if h.len() == 0 {
        Seq::<char>::empty()
    } else if h.len() == 1 {
        opening_line(h[0].text@)
    } else {
        history_text(h.drop_last()) + turn_line(h.last())
    }
}

/// The context block of one conversation turn: empty without snippets.
pub open spec fn context_block(snippets: Seq<Seq<char>>) -> Seq<char> {
    if snippets.len() == 0 {
        Seq::<char>::empty()
    } else {
        "CONTEXT:\n"@ + join_with(snippets, "\n"@) + "\n"@
    }
}

/// The context block of a single-turn ask: empty without snippets.
pub open spec fn ask_context_block(snippets: Seq<Seq<char>>) -> Seq<char> {
    if snippets.len() == 0 {
        Seq::<char>::empty()
    } else {
        "Here is some relevant context from the local files:\n\n"@ + join_with(snippets, "\n"@)
            + "\n"@
    }
}

/// The final prompt of a single-turn ask.
pub open spec fn ask_prompt(sys: Seq<char>, context: Seq<char>, question: Seq<char>) -> Seq<char> {
    sys + "\n\n"@ + context + "\n\nUser question: "@ + question
}

/// The per-turn prompt of a conversation: the agent's role, the retrieved
/// context, the full history so far, and the instruction naming the agent
/// and forbidding self-attribution.
pub open spec fn turn_prompt(
    sys: Seq<char>,
    context: Seq<char>,
    history: Seq<char>,
    name: Seq<char>,
) -> Seq<char> {
    "YOUR ROLE:\n"@ + sys + "\n\n"@ + context + "\n\nCONVERSATION HISTORY:\n---\n"@ + history
        + "\n---\n\nINSTRUCTIONS: Your name is "@ + name
        + ". Based on your role and the history, provide your response. Do NOT include your name or role in the response itself. Just give your conversational reply."@
}

/// Whether the trimming of a response removes this character.
fn is_space_char(c: char) -> (r: bool)
    ensures
        r == is_space(c),
{
    c == ' ' || c == '\n' || c == '\t' || c == '\r'
}

/// Removes the whitespace at both ends of a response.
pub fn trim(s: &str) -> (r: String)
    ensures
        r@ == trim_spec(s@),
{
    let len: usize = s.unicode_len();
    proof {
        assert(s@.subrange(0, len as int) =~= s@);
    }
    let mut start: usize = 0;
    while start < len && is_space_char(s.get_char(start))
        invariant
            len == s@.len(),
            start <= len,
            trim_front(s@) == trim_front(s@.subrange(start as int, len as int)),
        decreases len - start,
    {
        proof {
            let cur = s@.subrange(start as int, len as int);
            assert(cur.drop_first() =~= s@.subrange(start as int + 1, len as int));
        }
        start = start + 1;
    }
    proof {
        let cur = s@.subrange(start as int, len as int);
        assert(trim_front(cur) == cur);
    }
    let mut end: usize = len;
    while end > start && is_space_char(s.get_char(end - 1))
        invariant
            len == s@.len(),
            start <= end <= len,
            trim_front(s@) == s@.subrange(start as int, len as int),
            trim_back(s@.subrange(start as int, len as int)) == trim_back(
                s@.subrange(start as int, end as int),
            ),
        decreases end,
    {
        proof {
            let cur = s@.subrange(start as int, end as int);
            assert(cur.drop_last() =~= s@.subrange(start as int, end as int - 1));
        }
        end = end - 1;
    }
    proof {
        let cur = s@.subrange(start as int, end as int);
        assert(trim_back(cur) == cur);
    }
    s.substring_char(start, end).to_owned()
}

/// Joins rendered parts with newlines.
pub fn join_lines(parts: &Vec<String>) -> (r: String)
    ensures
        r@ == join_with(crate::string_views(parts@), "\n"@),
{
    let mut r: String = String::new();
    let n: usize = parts.len();
    let mut i: usize = 0;
    while i < n
        invariant
            n == parts@.len(),
            i <= n,
            r@ == join_with(crate::string_views(parts@).take(i as int), "\n"@),
        decreases n - i,
    {
        if i > 0 {
            r.append("\n");
        }
        r.append(parts[i].as_str());
        proof {
            let vs = crate::string_views(parts@);
            assert(vs.take(i as int + 1).drop_last() =~= vs.take(i as int));
            assert(vs.take(i as int + 1).last() == parts@[i as int]@);
            if i == 0 {
                assert(r@ =~= vs.take(1)[0]);
            }
        }
        i = i + 1;
    }
    proof {
        assert(crate::string_views(parts@).take(n as int) =~= crate::string_views(parts@));
    }
    r
}

/// Concatenates the streamed deltas of one exchange, in arrival order,
/// into the full response text.
pub fn concat_deltas(parts: &Vec<String>) -> (r: String)
    ensures
        r@ == concat_views(crate::string_views(parts@)),
{
    let mut r: String = String::new();
    let n: usize = parts.len();
    let mut i: usize = 0;
    while i < n
        invariant
            n == parts@.len(),
            i <= n,
            r@ == concat_views(crate::string_views(parts@).take(i as int)),
        decreases n - i,
    {
        r.append(parts[i].as_str());
        proof {
            let vs = crate::string_views(parts@);
            assert(vs.take(i as int + 1).drop_last() =~= vs.take(i as int));
            assert(vs.take(i as int + 1).last() == parts@[i as int]@);
        }
        i = i + 1;
    }
    proof {
        assert(crate::string_views(parts@).take(n as int) =~= crate::string_views(parts@));
    }
    r
}

/// Builds the context block of one conversation turn from the retrieved
/// snippets.
pub fn render_context_block(snippets: &Vec<String>) -> (r: String)
    ensures
        r@ == context_block(crate::string_views(snippets@)),
{
    if snippets.len() == 0 {
        return String::new();
    }
    let mut r: String = String::from_str("CONTEXT:\n");
    let joined: String = join_lines(snippets);
    r.append(joined.as_str());
    r.append("\n");
    r
}

/// Builds the context block of a single-turn ask from the retrieved
/// snippets.
pub fn render_ask_context(snippets: &Vec<String>) -> (r: String)
    ensures
        r@ == ask_context_block(crate::string_views(snippets@)),
{
    if snippets.len() == 0 {
        return String::new();
    }
    let mut r: String = String::from_str("Here is some relevant context from the local files:\n\n");
    let joined: String = join_lines(snippets);
    r.append(joined.as_str());
    r.append("\n");
    r
}

/// Composes the final prompt of a single-turn ask.
pub fn build_ask_prompt(sys: &str, context: &str, question: &str) -> (r: String)
    ensures
        r@ == ask_prompt(sys@, context@, question@),
{
    let mut r: String = sys.to_owned();
    r.append("\n\n");
    r.append(context);
    r.append("\n\nUser question: ");
    r.append(question);
    r
}

/// The state of a multi-agent conversation: the participants, the shared
/// history seeded with the user's opening prompt, and how many of the
/// fixed number of turns have completed.
pub struct Conversation {
    pub agents: Vec<AgentProfile>,
    pub history: Vec<HistoryEntry>,
    pub turns_taken: usize,
    pub turn_count: usize,
}

impl Conversation {
    /// The history holds the user's opening entry and one entry per
    /// completed turn, attributed in strict round robin from agent 0.
    pub open spec fn wf(self) -> bool {
        &&& self.agents@.len() >= 1
        &&& self.turns_taken <= self.turn_count
        &&& self.history@.len() == 1 + self.turns_taken
        &&& self.history@[0].speaker@ == "user"@
        &&& forall|i: int|
            0 <= i < self.turns_taken ==> (#[trigger] self.history@[1 + i]).speaker@
                == self.agents@[i % self.agents@.len() as int].name@
    }

    /// Starts a conversation: the shared history holds only the opening
    /// prompt, tagged as user-originated, and no turn has run.
    pub fn new(agents: Vec<AgentProfile>, opening_prompt: String, turn_count: usize) -> (r:
        Conversation)
        requires
            agents@.len() >= 1,
        ensures
            r.wf(),
            r.agents@ == agents@,
            r.turn_count == turn_count,
            r.turns_taken == 0,
            r.history@.len() == 1,
            r.history@[0].speaker@ == "user"@,
            r.history@[0].text@ == opening_prompt@,
    {
        let mut history: Vec<HistoryEntry> = Vec::new();
        history.push(HistoryEntry { speaker: String::from_str("user"), text: opening_prompt });
        Conversation { agents, history, turns_taken: 0, turn_count }
    }

    /// The index of the agent who speaks next: strict round robin.
    pub fn next_agent_index(&self) -> (r: usize)
        requires
            self.wf(),
        ensures
            r == self.turns_taken as int % self.agents@.len() as int,
            r < self.agents@.len(),
    {
        self.turns_taken % self.agents.len()
    }

    /// No turn is left to run.
    pub fn is_done(&self) -> (r: bool)
        ensures
            r == (self.turns_taken == self.turn_count),
    {
        self.turns_taken == self.turn_count
    }

    /// The full history so far, rendered to flat text.
    pub fn render_history(&self) -> (r: String)
        ensures
            r@ == history_text(self.history@),
    {
        let n: usize = self.history.len();
        let mut r: String = String::new();
        let mut i: usize = 0;
        while i < n
            invariant
                n == self.history@.len(),
                i <= n,
                r@ == history_text(self.history@.take(i as int)),
            decreases n - i,
        {
            let e: &HistoryEntry = &self.history[i];
            if i == 0 {
                let mut line: String = String::from_str(
                    "The user started the conversation with this prompt: \"",
                );
                line.append(e.text.as_str());
                line.append("\"");
                r.append(line.as_str());
                proof {
                    assert(history_text(self.history@.take(1)) == opening_line(
                        self.history@[0].text@,
                    ));
                }
            } else {
                let mut line: String = String::from_str("\n\n");
                line.append(e.speaker.as_str());
                line.append(": ");
                line.append(e.text.as_str());
                r.append(line.as_str());
                proof {
                    let taken = self.history@.take(i as int + 1);
                    assert(taken.drop_last() =~= self.history@.take(i as int));
                    assert(taken.last() == self.history@[i as int]);
                }
            }
            i = i + 1;
        }
        proof {
            assert(self.history@.take(n as int) =~= self.history@);
        }
        r
    }

    /// Composes the prompt of the next turn from the retrieved context
    /// block: the active agent's role, the context, the rendered history,
    /// and the instruction naming the agent.
    pub fn next_turn_prompt(&self, context: &str) -> (r: String)
        requires
            self.wf(),
            self.turns_taken < self.turn_count,
        ensures
            ({
                let agent = self.agents@[self.turns_taken as int % self.agents@.len() as int];
                r@ == turn_prompt(
                    agent.system_prompt@,
                    context@,
                    history_text(self.history@),
                    agent.name@,
                )
            }),
    {
        let idx: usize = self.next_agent_index();
        let agent: &AgentProfile = &self.agents[idx];
        let history: String = self.render_history();
        let mut r: String = String::from_str("YOUR ROLE:\n");
        r.append(agent.system_prompt.as_str());
        r.append("\n\n");
        r.append(context);
        r.append("\n\nCONVERSATION HISTORY:\n---\n");
        r.append(history.as_str());
        r.append("\n---\n\nINSTRUCTIONS: Your name is ");
        r.append(agent.name.as_str());
        r.append(
            ". Based on your role and the history, provide your response. Do NOT include your name or role in the response itself. Just give your conversational reply.",
        );
        r
    }

    /// Commits one completed turn: the active agent's trimmed response is
    /// appended to the history, attributed to that agent, and the turn
    /// counter advances. Nothing else changes; an aborted turn is simply
    /// never committed.
    pub fn commit_turn(&mut self, response: &str)
        requires
            old(self).wf(),
            old(self).turns_taken < old(self).turn_count,
        ensures
            final(self).wf(),
            final(self).agents@ == old(self).agents@,
            final(self).turn_count == old(self).turn_count,
            final(self).turns_taken == old(self).turns_taken + 1,
            final(self).history@.len() == old(self).history@.len() + 1,
            final(self).history@.take(old(self).history@.len() as int) == old(self).history@,
            final(self).history@.last().speaker@ == old(self).agents@[old(
                self,
            ).turns_taken as int % old(self).agents@.len() as int].name@,
            final(self).history@.last().text@ == trim_spec(response@),
    {
        let idx: usize = self.next_agent_index();
        let name: String = self.agents[idx].name.clone();
        let trimmed: String = trim(response);
        self.history.push(HistoryEntry { speaker: name, text: trimmed });
        self.turns_taken = self.turns_taken + 1;
        proof {
            assert(self.history@.take(old(self).history@.len() as int) =~= old(self).history@);
        }
    }
}

/// After a conversation has run all its turns, the history has gained
/// exactly `turn_count` entries beyond the opening prompt, attributed in
/// strict round robin starting at agent 0; the next, unrun speaker would
/// be the agent at `turn_count % agents.len()`.
pub proof fn lemma_round_robin(c: Conversation)
    requires
        c.wf(),
        c.turns_taken == c.turn_count,
    ensures
        c.history@.len() == 1 + c.turn_count,
        forall|i: int|
            0 <= i < c.turn_count ==> (#[trigger] c.history@[1 + i]).speaker@ == c.agents@[i
                % c.agents@.len() as int].name@,
        c.history@[0].speaker@ == "user"@,
{
}

} // verus!
