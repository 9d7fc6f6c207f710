use vstd::prelude::*;
use crate::config::CompiledPersona;
use crate::patterns::{glob_matches, regex_matches, CompiledGlob, CompiledTrigger,
    glob_is_match, trigger_is_match};

verus! {

/// One matched change, as appended to the chronicle.
pub struct ValveEvent {
    /// Name of the persona that matched.
    pub persona: String,
    /// Absolute path of the watched repository.
    pub repo: String,
    /// Path of the changed file, relative to the repository root.
    pub file: String,
    /// "glob" when no trigger was evaluated, "glob+trigger" when a
    /// trigger matched the file's content.
    pub reason: String,
    /// Milliseconds since the epoch, UTC.
    pub timestamp: i64,
}

/// The mathematical value of a `ValveEvent`.
#[verifier::ext_equal]
pub ghost struct ValveEventView {
    pub persona: Seq<char>,
    pub repo: Seq<char>,
    pub file: Seq<char>,
    pub reason: Seq<char>,
    pub timestamp: int,
}

impl View for ValveEvent {
    type V = ValveEventView;

    open spec fn view(&self) -> ValveEventView {
        ValveEventView {
            persona: self.persona@,
            repo: self.repo@,
            file: self.file@,
            reason: self.reason@,
            timestamp: self.timestamp as int,
        }
    }
}

pub open spec fn event_views(events: Seq<ValveEvent>) -> Seq<ValveEventView> {
    events.map_values(|e: ValveEvent| e@)
}

/// The glob stage passes when the globset is empty or some glob
/// matches the relative path.
pub open spec fn glob_stage_passes(p: CompiledPersona, rel: Seq<char>) -> bool {
    ||| p.globset@.len() == 0
    ||| exists|i: int|
        0 <= i < p.globset@.len() && glob_matches((#[trigger] p.globset@[i]).spec_pattern(), rel)
}

/// Some trigger regex of the persona matches the content.
pub open spec fn some_trigger_matches(p: CompiledPersona, text: Seq<char>) -> bool {
    exists|i: int|
        0 <= i < p.triggers@.len() && regex_matches((#[trigger] p.triggers@[i]).spec_pattern(), text)
}

/// Whether the persona emits an event for a change at `rel` with the
/// given content: the glob stage must pass, and a non-empty trigger
/// list demands content that some trigger matches.
pub open spec fn persona_emits(p: CompiledPersona, rel: Seq<char>, content: Option<Seq<char>>) -> bool {
    &&& glob_stage_passes(p, rel)
    &&& (p.triggers@.len() == 0 || (content is Some && some_trigger_matches(p, content.unwrap())))
}

/// The reason recorded on an emitted event.
pub open spec fn persona_reason(p: CompiledPersona) -> Seq<char> {
    if p.triggers@.len() > 0 {
        "glob+trigger"@
    } else {
        "glob"@
    }
}

/// The event an emitting persona produces.
pub open spec fn event_of(
    p: CompiledPersona,
    repo: Seq<char>,
    rel: Seq<char>,
    ts: int,
) -> ValveEventView {
    ValveEventView {
        persona: p.name@,
        repo: repo,
        file: rel,
        reason: persona_reason(p),
        timestamp: ts,
    }
}

/// All events a persona list produces for one change, in declaration
/// order: one event per emitting persona.
pub open spec fn matched_events(
    personas: Seq<CompiledPersona>,
    repo: Seq<char>,
    rel: Seq<char>,
    content: Option<Seq<char>>,
    ts: int,
) -> Seq<ValveEventView>
    decreases personas.len(),
{
    if personas.len() == 0 {
        Seq::empty()
    } else {
        let init = matched_events(personas.drop_last(), repo, rel, content, ts);
        if persona_emits(personas.last(), rel, content) {
            init.push(event_of(personas.last(), repo, rel, ts))
        } else {
            init
        }
    }
}

pub open spec fn content_view(content: Option<&String>) -> Option<Seq<char>> {
    match content {
        Some(s) => Some(s@),
        None => None,
    }
}

/// How many personas of the list emit for one change.
pub open spec fn emit_count(
    personas: Seq<CompiledPersona>,
    rel: Seq<char>,
    content: Option<Seq<char>>,
) -> nat
    decreases personas.len(),
{
    if personas.len() == 0 {
        0
    } else {
        emit_count(personas.drop_last(), rel, content)
            + if persona_emits(personas.last(), rel, content) { 1nat } else { 0nat }
    }
}

/// Law: one change yields exactly one event per emitting persona — the
/// event list is exactly as long as the count of emitting personas.
/// Which event stands at each position, with which name and reason,
/// is `matched_events` itself.
pub proof fn lemma_one_event_per_emitting_persona(
    personas: Seq<CompiledPersona>,
    repo: Seq<char>,
    rel: Seq<char>,
    content: Option<Seq<char>>,
    ts: int,
)
    ensures
        matched_events(personas, repo, rel, content, ts).len()
            == emit_count(personas, rel, content),
    decreases personas.len(),
{
    if personas.len() > 0 {
        lemma_one_event_per_emitting_persona(personas.drop_last(), repo, rel, content, ts);
    }
}

/// Law: a persona with an empty globset and an empty trigger list emits
/// for every change, with reason "glob"; alone in a list it produces
/// exactly one event.
pub proof fn lemma_empty_persona_always_emits(
    p: CompiledPersona,
    repo: Seq<char>,
    rel: Seq<char>,
    content: Option<Seq<char>>,
    ts: int,
)
    requires
        p.globset@.len() == 0,
        p.triggers@.len() == 0,
    ensures
        persona_emits(p, rel, content),
        persona_reason(p) == "glob"@,
        matched_events(seq![p], repo, rel, content, ts) =~= seq![event_of(p, repo, rel, ts)],
{
    assert(seq![p].drop_last() =~= Seq::<CompiledPersona>::empty());
    assert(seq![p].last() == p);
    assert(matched_events(Seq::<CompiledPersona>::empty(), repo, rel, content, ts)
        =~= Seq::<ValveEventView>::empty());
    assert(matched_events(seq![p], repo, rel, content, ts)
        =~= Seq::<ValveEventView>::empty().push(event_of(p, repo, rel, ts)));
}

/// How many of the events carry the persona name `name`.
pub open spec fn events_named(events: Seq<ValveEventView>, name: Seq<char>) -> nat
    decreases events.len(),
{
    if events.len() == 0 {
        0
    } else {
        events_named(events.drop_last(), name)
            + if events.last().persona == name { 1nat } else { 0nat }
    }
}

/// A list without a persona of that name yields no event under it.
proof fn lemma_no_persona_no_events_named(
    personas: Seq<CompiledPersona>,
    repo: Seq<char>,
    rel: Seq<char>,
    content: Option<Seq<char>>,
    ts: int,
    name: Seq<char>,
)
    requires
        forall|i: int| 0 <= i < personas.len() ==> (#[trigger] personas[i]).name@ != name,
    ensures
        events_named(matched_events(personas, repo, rel, content, ts), name) == 0,
    decreases personas.len(),
{
    if personas.len() > 0 {
        assert(forall|i: int| 0 <= i < personas.drop_last().len()
            ==> personas.drop_last()[i] == personas[i]);
        lemma_no_persona_no_events_named(personas.drop_last(), repo, rel, content, ts, name);
        let init = matched_events(personas.drop_last(), repo, rel, content, ts);
        if persona_emits(personas.last(), rel, content) {
            let ev = event_of(personas.last(), repo, rel, ts);
            assert(init.push(ev).drop_last() =~= init);
            assert(init.push(ev).last() == ev);
            assert(personas.last() == personas[personas.len() - 1]);
            assert(ev.persona != name);
        }
    }
}

/// Law: in a list of personas with pairwise distinct names, a persona
/// with an empty globset and an empty trigger list gets exactly one
/// event for every change, whatever the path and content.
pub proof fn lemma_empty_persona_exactly_one_event(
    personas: Seq<CompiledPersona>,
    repo: Seq<char>,
    rel: Seq<char>,
    content: Option<Seq<char>>,
    ts: int,
    idx: int,
)
    requires
        0 <= idx < personas.len(),
        personas[idx].globset@.len() == 0,
        personas[idx].triggers@.len() == 0,
        forall|i: int, j: int| 0 <= i < j < personas.len()
            ==> (#[trigger] personas[i]).name@ != (#[trigger] personas[j]).name@,
    ensures
        events_named(
            matched_events(personas, repo, rel, content, ts),
            personas[idx].name@,
        ) == 1,
    decreases personas.len(),
{
    let name = personas[idx].name@;
    let init = matched_events(personas.drop_last(), repo, rel, content, ts);
    assert(personas.last() == personas[personas.len() - 1]);
    assert(forall|i: int| 0 <= i < personas.drop_last().len()
        ==> personas.drop_last()[i] == personas[i]);
    if idx == personas.len() - 1 {
        assert(persona_emits(personas.last(), rel, content));
        let ev = event_of(personas.last(), repo, rel, ts);
        assert(init.push(ev).drop_last() =~= init);
        assert(init.push(ev).last() == ev);
        assert(forall|i: int| 0 <= i < personas.drop_last().len()
            ==> (#[trigger] personas.drop_last()[i]).name@ != name);
        lemma_no_persona_no_events_named(personas.drop_last(), repo, rel, content, ts, name);
    } else {
        lemma_empty_persona_exactly_one_event(
            personas.drop_last(), repo, rel, content, ts, idx);
        if persona_emits(personas.last(), rel, content) {
            let ev = event_of(personas.last(), repo, rel, ts);
            assert(init.push(ev).drop_last() =~= init);
            assert(init.push(ev).last() == ev);
            assert(ev.persona != name);
        }
    }
}

/// Law: a persona with a non-empty trigger list emits nothing when no
/// content is provided.
pub proof fn lemma_triggers_need_content(p: CompiledPersona, rel: Seq<char>)
    requires
        p.triggers@.len() > 0,
    ensures
        !persona_emits(p, rel, None),
{
}

/// Law: when every persona of a list has triggers and no content is
/// provided, the matcher emits no events at all.
pub proof fn lemma_no_content_no_events(
    personas: Seq<CompiledPersona>,
    repo: Seq<char>,
    rel: Seq<char>,
    ts: int,
)
    requires
        forall|i: int| 0 <= i < personas.len() ==> (#[trigger] personas[i]).triggers@.len() > 0,
    ensures
        matched_events(personas, repo, rel, None, ts) =~= Seq::<ValveEventView>::empty(),
    decreases personas.len(),
{
    if personas.len() > 0 {
        assert(personas.last() == personas[personas.len() - 1]);
        assert(forall|i: int| 0 <= i < personas.drop_last().len()
            ==> (#[trigger] personas.drop_last()[i]).triggers@.len() > 0);
        lemma_no_content_no_events(personas.drop_last(), repo, rel, ts);
    }
}

/// Law: an emitted event's reason is "glob+trigger" exactly when some
/// trigger matched the provided content, and "glob" otherwise.
pub proof fn lemma_reason_names_the_trigger(
    p: CompiledPersona,
    rel: Seq<char>,
    content: Option<Seq<char>>,
)
    requires
        persona_emits(p, rel, content),
    ensures
        (persona_reason(p) == "glob+trigger"@)
            <==> (content is Some && some_trigger_matches(p, content.unwrap())),
        (persona_reason(p) == "glob"@)
            <==> !(content is Some && some_trigger_matches(p, content.unwrap())),
{
    reveal_strlit("glob");
    reveal_strlit("glob+trigger");
    assert("glob"@.len() == 4);
    assert("glob+trigger"@.len() == 12);
    if p.triggers@.len() == 0 {
        assert(!some_trigger_matches(p, content.unwrap()));
    }
}

/// True when some glob of the list matches `path`.
fn any_glob_matches(globs: &Vec<CompiledGlob>, path: &String) -> (r: bool)
    ensures
        r == exists|i: int|
            0 <= i < globs@.len() && glob_matches((#[trigger] globs@[i]).spec_pattern(), path@),
{
    let n = globs.len();
    let mut i: usize = 0;
    while i < n
        invariant
            n == globs@.len(),
            i <= n,
            forall|j: int| 0 <= j < i ==>
                !glob_matches((#[trigger] globs@[j]).spec_pattern(), path@),
        decreases n - i,
    {
        if glob_is_match(&globs[i], path) {
            return true;
        }
        i += 1;
    }
    false
}

/// True when some trigger of the list matches `text`.
fn any_trigger_matches(trigs: &Vec<CompiledTrigger>, text: &String) -> (r: bool)
    ensures
        r == exists|i: int|
            0 <= i < trigs@.len() && regex_matches((#[trigger] trigs@[i]).spec_pattern(), text@),
{
    let n = trigs.len();
    let mut i: usize = 0;
    while i < n
        invariant
            n == trigs@.len(),
            i <= n,
            forall|j: int| 0 <= j < i ==>
                !regex_matches((#[trigger] trigs@[j]).spec_pattern(), text@),
        decreases n - i,
    {
        if trigger_is_match(&trigs[i], text) {
            return true;
        }
        i += 1;
    }
    false
}

/// Runs every persona, in declared order, against one change.
///
/// `rel` is the changed file's path relative to the repository root
/// `repo`; `content` is the file's text when it could be read as UTF-8.
/// The result is exactly one event per emitting persona (§`persona_emits`),
/// stamped with `timestamp`.
pub fn match_personas(
    personas: &Vec<CompiledPersona>,
    repo: &String,
    rel: &String,
    content: Option<&String>,
    timestamp: i64,
) -> (events: Vec<ValveEvent>)
    ensures
        event_views(events@) == matched_events(
            personas@, repo@, rel@, content_view(content), timestamp as int),
{
    let mut events: Vec<ValveEvent> = Vec::new();
    let n = personas.len();
    let mut i: usize = 0;
    while i < n
        invariant
            n == personas@.len(),
            i <= n,
            event_views(events@) =~= matched_events(
                personas@.take(i as int), repo@, rel@, content_view(content), timestamp as int),
        decreases n - i,
    {
        let p = &personas[i];
        let glob_pass = p.globset.len() == 0 || any_glob_matches(&p.globset, rel);
        let mut emit = glob_pass;
        let mut with_trigger = false;
        if emit && p.triggers.len() > 0 {
            match content {
                Some(text) => {
                    if any_trigger_matches(&p.triggers, text) {
                        with_trigger = true;
                    } else {
                        emit = false;
                    }
                },
                None => {
                    emit = false;
                },
            }
        }
        assert(emit == persona_emits(personas@[i as int], rel@, content_view(content)));
        if emit {
            let reason = if with_trigger {
                String::from_str("glob+trigger")
            } else {
                String::from_str("glob")
            };
            let ev = ValveEvent {
                persona: p.name.clone(),
                repo: repo.clone(),
                file: rel.clone(),
                reason,
                timestamp,
            };
            assert(ev@ =~= event_of(personas@[i as int], repo@, rel@, timestamp as int));
            events.push(ev);
        }
        proof {
            assert(personas@.take(i as int + 1).drop_last() =~= personas@.take(i as int));
            assert(personas@.take(i as int + 1).last() == personas@[i as int]);
        }
        i += 1;
    }
    proof {
        assert(personas@.take(n as int) =~= personas@);
    }
    events
}

} // verus!
