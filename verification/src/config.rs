use vstd::prelude::*;
use crate::errors::ValveError;
use crate::patterns::{
    glob_ok, regex_ok, CompiledGlob, CompiledTrigger, compile_glob, compile_trigger,
};

verus! {

/// One persona as it stands in a repository's rule file.
pub struct PersonaConfig {
    /// Path globs; an absent or empty list matches every path.
    pub filters: Option<Vec<String>>,
    /// Content regexes; an absent or empty list asks for no content.
    pub triggers: Option<Vec<String>>,
    /// Optional response label, carried through unchanged.
    pub response: Option<String>,
    /// Optional severity label, carried through unchanged.
    pub severity: Option<String>,
    /// Reserved; never read.
    pub schedule: Option<String>,
}

/// A whole rule document: named personas in declaration order.
pub struct ValveConfig {
    pub personas: Vec<(String, PersonaConfig)>,
}

/// A persona compiled for matching.
pub struct CompiledPersona {
    pub name: String,
    pub globset: Vec<CompiledGlob>,
    pub triggers: Vec<CompiledTrigger>,
    pub response: Option<String>,
    pub severity: Option<String>,
}

pub open spec fn opt_string_view(o: Option<String>) -> Option<Seq<char>> {
    match o {
        Some(s) => Some(s@),
        None => None,
    }
}

pub open spec fn string_views(v: Seq<String>) -> Seq<Seq<char>> {
    v.map_values(|s: String| s@)
}

/// The patterns named by an optional list, in order.
pub open spec fn patterns_of(o: Option<Vec<String>>) -> Seq<Seq<char>> {
    match o {
        Some(v) => string_views(v@),
        None => Seq::empty(),
    }
}

/// The glob patterns a persona configuration names, in order.
pub open spec fn filter_patterns(p: PersonaConfig) -> Seq<Seq<char>> {
    patterns_of(p.filters)
}

/// The trigger patterns a persona configuration names, in order.
pub open spec fn trigger_patterns(p: PersonaConfig) -> Seq<Seq<char>> {
    patterns_of(p.triggers)
}

/// All of a persona's globs and regexes compile.
pub open spec fn persona_config_ok(p: PersonaConfig) -> bool {
    &&& forall|i: int| 0 <= i < filter_patterns(p).len() ==> glob_ok(filter_patterns(p)[i])
    &&& forall|i: int| 0 <= i < trigger_patterns(p).len() ==> regex_ok(trigger_patterns(p)[i])
}

/// All personas of the document compile.
pub open spec fn config_ok(c: ValveConfig) -> bool {
    forall|i: int| 0 <= i < c.personas@.len() ==> persona_config_ok((#[trigger] c.personas@[i]).1)
}

impl CompiledPersona {
    pub open spec fn glob_patterns(self) -> Seq<Seq<char>> {
        self.globset@.map_values(|g: CompiledGlob| g.spec_pattern())
    }

    pub open spec fn trigger_patterns(self) -> Seq<Seq<char>> {
        self.triggers@.map_values(|t: CompiledTrigger| t.spec_pattern())
    }

    /// The compiled persona carries exactly what the configuration entry said.
    pub open spec fn compiled_from(self, name: Seq<char>, p: PersonaConfig) -> bool {
        &&& self.name@ == name
        &&& self.glob_patterns() == filter_patterns(p)
        &&& self.trigger_patterns() == trigger_patterns(p)
        &&& opt_string_view(self.response) == opt_string_view(p.response)
        &&& opt_string_view(self.severity) == opt_string_view(p.severity)
    }
}

/// Copies an optional label.
pub fn clone_opt_string(o: &Option<String>) -> (r: Option<String>)
    ensures
        opt_string_view(r) == opt_string_view(*o),
{
    match o {
        Some(s) => Some(s.clone()),
        None => None,
    }
}

/// Compiles a persona's filter globs, in order; fails on the first
/// malformed pattern.
fn compile_globs(filters: &Option<Vec<String>>) -> (r: Result<Vec<CompiledGlob>, ValveError>)
    ensures
        r is Ok <==> (forall|i: int|
            0 <= i < patterns_of(*filters).len() ==> glob_ok(patterns_of(*filters)[i])),
        r is Ok ==> r->Ok_0@.map_values(|g: CompiledGlob| g.spec_pattern())
            =~= patterns_of(*filters),
        r is Err ==> r->Err_0 == ValveError::InvalidConfig,
{
    let mut out: Vec<CompiledGlob> = Vec::new();
    match filters {
        None => {
            assert(patterns_of(*filters) =~= Seq::<Seq<char>>::empty());
            Ok(out)
        },
        Some(fs) => {
            assert(patterns_of(*filters) == string_views(fs@));
            let n = fs.len();
            let mut i: usize = 0;
            while i < n
                invariant
                    patterns_of(*filters) == string_views(fs@),
                    n == fs@.len(),
                    i <= n,
                    out@.len() == i,
                    forall|j: int| 0 <= j < i ==> glob_ok(string_views(fs@)[j]),
                    forall|j: int| 0 <= j < i ==>
                        (#[trigger] out@[j]).spec_pattern() == string_views(fs@)[j],
                decreases n - i,
            {
                match compile_glob(&fs[i]) {
                    Some(g) => { out.push(g); },
                    None => {
                        assert(!glob_ok(string_views(fs@)[i as int]));
                        return Err(ValveError::InvalidConfig);
                    },
                }
                i += 1;
            }
            assert(out@.map_values(|g: CompiledGlob| g.spec_pattern()) =~= string_views(fs@));
            Ok(out)
        },
    }
}

/// Compiles a persona's trigger regexes, in order; fails on the first
/// malformed pattern.
fn compile_triggers(triggers: &Option<Vec<String>>) -> (r: Result<Vec<CompiledTrigger>, ValveError>)
    ensures
        r is Ok <==> (forall|i: int|
            0 <= i < patterns_of(*triggers).len() ==> regex_ok(patterns_of(*triggers)[i])),
        r is Ok ==> r->Ok_0@.map_values(|t: CompiledTrigger| t.spec_pattern())
            =~= patterns_of(*triggers),
        r is Err ==> r->Err_0 == ValveError::InvalidConfig,
{
    let mut out: Vec<CompiledTrigger> = Vec::new();
    match triggers {
        None => {
            assert(patterns_of(*triggers) =~= Seq::<Seq<char>>::empty());
            Ok(out)
        },
        Some(ts) => {
            assert(patterns_of(*triggers) == string_views(ts@));
            let n = ts.len();
            let mut i: usize = 0;
            while i < n
                invariant
                    patterns_of(*triggers) == string_views(ts@),
                    n == ts@.len(),
                    i <= n,
                    out@.len() == i,
                    forall|j: int| 0 <= j < i ==> regex_ok(string_views(ts@)[j]),
                    forall|j: int| 0 <= j < i ==>
                        (#[trigger] out@[j]).spec_pattern() == string_views(ts@)[j],
                decreases n - i,
            {
                match compile_trigger(&ts[i]) {
                    Some(t) => { out.push(t); },
                    None => {
                        assert(!regex_ok(string_views(ts@)[i as int]));
                        return Err(ValveError::InvalidConfig);
                    },
                }
                i += 1;
            }
            assert(out@.map_values(|t: CompiledTrigger| t.spec_pattern()) =~= string_views(ts@));
            Ok(out)
        },
    }
}

/// Compiles a rule document into the ordered persona list.
///
/// Succeeds exactly when every glob and every regex in the document
/// compiles; otherwise the whole document is rejected as invalid
/// configuration, and the caller proceeds with an empty persona list.
pub fn compile(cfg: &ValveConfig) -> (r: Result<Vec<CompiledPersona>, ValveError>)
    ensures
        r is Ok <==> config_ok(*cfg),
        r is Ok ==> {
            &&& r->Ok_0@.len() == cfg.personas@.len()
            &&& forall|i: int| 0 <= i < cfg.personas@.len() ==>
                (#[trigger] r->Ok_0@[i]).compiled_from(
                    cfg.personas@[i].0@,
                    cfg.personas@[i].1,
                )
        },
        r is Err ==> r->Err_0 == ValveError::InvalidConfig,
{
    let mut out: Vec<CompiledPersona> = Vec::new();
    let n = cfg.personas.len();
    let mut i: usize = 0;
    while i < n
        invariant
            n == cfg.personas@.len(),
            i <= n,
            out@.len() == i,
            forall|j: int| 0 <= j < i ==> persona_config_ok((#[trigger] cfg.personas@[j]).1),
            forall|j: int| 0 <= j < i ==>
                (#[trigger] out@[j]).compiled_from(cfg.personas@[j].0@, cfg.personas@[j].1),
        decreases n - i,
    {
        let pair = &cfg.personas[i];
        let name = &pair.0;
        let pc = &pair.1;
        assert(*pair == cfg.personas@[i as int]);
        assert(filter_patterns(*pc) == patterns_of(pc.filters));
        assert(trigger_patterns(*pc) == patterns_of(pc.triggers));
        let globset = match compile_globs(&pc.filters) {
            Ok(g) => g,
            Err(e) => {
                assert(!persona_config_ok(cfg.personas@[i as int].1));
                return Err(e);
            },
        };
        let triggers = match compile_triggers(&pc.triggers) {
            Ok(t) => t,
            Err(e) => {
                assert(!persona_config_ok(cfg.personas@[i as int].1));
                return Err(e);
            },
        };
        let compiled = CompiledPersona {
            name: name.clone(),
            globset,
            triggers,
            response: clone_opt_string(&pc.response),
            severity: clone_opt_string(&pc.severity),
        };
        assert(compiled.compiled_from(cfg.personas@[i as int].0@, cfg.personas@[i as int].1));
        out.push(compiled);
        i += 1;
    }
    Ok(out)
}

} // verus!
