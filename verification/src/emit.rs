//! The profile emitter: merges each resolved endpoint's declared environment
//! contributions into a single accumulator (colon-joined path-like variables
//! and a first-wins isolated-runtime reference) and renders the result as a
//! shell-sourceable profile.

use crate::config::{
    lookup, Config, ConfigError, FieldValue, RootValue, SpecConfigError, SpecFieldValue,
    SpecRootValue,
};
use vstd::prelude::*;
use vstd::string::StringExecFns;

verus! {

/// Ghost state of the environment accumulator.
pub struct SpecAccum {
    /// The isolated-runtime reference: the first declaration seen.
    pub runtime: Option<Seq<char>>,
    /// Variable contributions in first-contribution order, each with its
    /// colon-joined values.
    pub vars: Seq<(Seq<char>, Seq<char>)>,
    /// The endpoints whose isolated-runtime declaration was discarded.
    pub conflicts: Seq<Seq<char>>,
}

/// The accumulator before any endpoint contributed.
pub open spec fn empty_accum() -> SpecAccum {
    SpecAccum { runtime: None, vars: Seq::empty(), conflicts: Seq::empty() }
}

/// Index of the first binding of `key` among the accumulated variables.
pub open spec fn var_index(vars: Seq<(Seq<char>, Seq<char>)>, key: Seq<char>) -> Option<int>
    decreases vars.len(),
{
    if vars.len() == 0 {
        None
    } else if vars[0].0 == key {
        Some(0int)
    } else {
        match var_index(vars.subrange(1, vars.len() as int), key) {
            Some(i) => Some(i + 1),
            None => None,
        }
    }
}

/// `a`, a colon, `b`.
pub open spec fn joined(a: Seq<char>, b: Seq<char>) -> Seq<char> {
    a + seq![':'] + b
}

/// Add one contribution: extend the variable's colon-joined values, or bind
/// a new variable at the end, keeping first-contribution order.
pub open spec fn var_append(
    vars: Seq<(Seq<char>, Seq<char>)>,
    key: Seq<char>,
    value: Seq<char>,
) -> Seq<(Seq<char>, Seq<char>)> {
    match var_index(vars, key) {
        Some(i) => vars.update(i, (vars[i].0, joined(vars[i].1, value))),
        None => vars.push((key, value)),
    }
}

proof fn lemma_var_index(vars: Seq<(Seq<char>, Seq<char>)>, key: Seq<char>)
    ensures
        match var_index(vars, key) {
            Some(i) => 0 <= i < vars.len() && vars[i].0 == key && forall|m: int|
                0 <= m < i ==> (#[trigger] vars[m]).0 != key,
            None => forall|m: int| 0 <= m < vars.len() ==> (#[trigger] vars[m]).0 != key,
        },
    decreases vars.len(),
{
    if vars.len() == 0 {
    } else if vars[0].0 == key {
    } else {
        let tail = vars.subrange(1, vars.len() as int);
        lemma_var_index(tail, key);
        assert(forall|m: int| 0 <= m < tail.len() ==> #[trigger] tail[m] == vars[m + 1]);
        match var_index(tail, key) {
            Some(i) => {
                assert forall|m: int| 0 <= m < i + 1 implies (#[trigger] vars[m]).0 != key by {
                    if m > 0 {
                        assert(tail[m - 1] == vars[m]);
                    }
                }
            },
            None => {
                assert forall|m: int| 0 <= m < vars.len() implies (#[trigger] vars[m]).0
                    != key by {
                    if m > 0 {
                        assert(tail[m - 1] == vars[m]);
                    }
                }
            },
        }
    }
}

/// The accumulated variable names, in emission order.
pub open spec fn var_keys(vars: Seq<(Seq<char>, Seq<char>)>) -> Seq<Seq<char>> {
    vars.map_values(|p: (Seq<char>, Seq<char>)| p.0)
}

proof fn lemma_var_append_keys(vars: Seq<(Seq<char>, Seq<char>)>, key: Seq<char>, value: Seq<char>)
    requires
        var_keys(vars).no_duplicates(),
    ensures
        var_keys(var_append(vars, key, value)).no_duplicates(),
{
    lemma_var_index(vars, key);
    match var_index(vars, key) {
        Some(i) => {
            assert(var_keys(var_append(vars, key, value)) =~= var_keys(vars));
        },
        None => {
            let nk = var_keys(vars).push(key);
            assert(var_keys(var_append(vars, key, value)) =~= nk);
            assert forall|a: int, b: int|
                0 <= a < nk.len() && 0 <= b < nk.len() && a != b implies nk[a] != nk[b] by {
                if a < vars.len() && b < vars.len() {
                    assert(var_keys(vars)[a] != var_keys(vars)[b]);
                } else if b == vars.len() {
                    assert(nk[a] == vars[a].0);
                    assert(vars[a].0 != key);
                } else {
                    assert(nk[b] == vars[b].0);
                    assert(vars[b].0 != key);
                }
            }
        },
    }
}

/// What one field of an endpoint's entry does to the accumulator: `require`
/// is skipped, the isolated-runtime key keeps its first value and records
/// later declarations as conflicts, and any other key contributes its string
/// value to the variable it names.
pub open spec fn apply_field(
    endpoint: Seq<char>,
    key: Seq<char>,
    value: SpecFieldValue,
    st: SpecAccum,
) -> Result<SpecAccum, SpecConfigError> {
    if key == "require"@ {
        Ok(st)
    } else if key == "conda"@ {
        match st.runtime {
            Some(_) => Ok(
                SpecAccum {
                    runtime: st.runtime,
                    vars: st.vars,
                    conflicts: st.conflicts.push(endpoint),
                },
            ),
            None => match value {
                SpecFieldValue::Str(s) => Ok(
                    SpecAccum { runtime: Some(s), vars: st.vars, conflicts: st.conflicts },
                ),
                _ => Err(SpecConfigError::FieldNotString { endpoint: endpoint, key: key }),
            },
        }
    } else {
        match value {
            SpecFieldValue::Str(s) => Ok(
                SpecAccum {
                    runtime: st.runtime,
                    vars: var_append(st.vars, key, s),
                    conflicts: st.conflicts,
                },
            ),
            _ => Err(SpecConfigError::FieldNotString { endpoint: endpoint, key: key }),
        }
    }
}

/// Fold an entry's fields over the accumulator, in entry order.
pub open spec fn apply_fields(
    endpoint: Seq<char>,
    fields: Seq<(Seq<char>, SpecFieldValue)>,
    st: SpecAccum,
) -> Result<SpecAccum, SpecConfigError>
    decreases fields.len(),
{
    if fields.len() == 0 {
        Ok(st)
    } else {
        match apply_field(endpoint, fields[0].0, fields[0].1, st) {
            Ok(st2) => apply_fields(endpoint, fields.subrange(1, fields.len() as int), st2),
            Err(e) => Err(e),
        }
    }
}

/// What one resolved endpoint does to the accumulator: nothing without an
/// entry, its fields in order with one, and a fatal error when its root
/// value is not a table.
pub open spec fn apply_endpoint(
    cfg: Seq<(Seq<char>, SpecRootValue)>,
    endpoint: Seq<char>,
    st: SpecAccum,
) -> Result<SpecAccum, SpecConfigError> {
    match lookup(cfg, endpoint) {
        None => Ok(st),
        Some(SpecRootValue::Entry(fields)) => apply_fields(endpoint, fields, st),
        Some(_) => Err(SpecConfigError::EntryNotTable { endpoint: endpoint }),
    }
}

/// Fold the endpoints over the accumulator, in the order given.
pub open spec fn accumulate_from(
    cfg: Seq<(Seq<char>, SpecRootValue)>,
    endpoints: Seq<Seq<char>>,
    st: SpecAccum,
) -> Result<SpecAccum, SpecConfigError>
    decreases endpoints.len(),
{
    if endpoints.len() == 0 {
        Ok(st)
    } else {
        match apply_endpoint(cfg, endpoints[0], st) {
            Ok(st2) => accumulate_from(
                cfg,
                endpoints.subrange(1, endpoints.len() as int),
                st2,
            ),
            Err(e) => Err(e),
        }
    }
}

/// The accumulator after every endpoint's contributions, in the order given,
/// folded over the empty state.
pub open spec fn spec_accumulate(
    cfg: Seq<(Seq<char>, SpecRootValue)>,
    endpoints: Seq<Seq<char>>,
) -> Result<SpecAccum, SpecConfigError> {
    accumulate_from(cfg, endpoints, empty_accum())
}

proof fn lemma_apply_field_keys(
    endpoint: Seq<char>,
    key: Seq<char>,
    value: SpecFieldValue,
    st: SpecAccum,
)
    requires
        var_keys(st.vars).no_duplicates(),
    ensures
        apply_field(endpoint, key, value, st) matches Ok(st2) ==> var_keys(
            st2.vars,
        ).no_duplicates(),
{
    if key == "require"@ || key == "conda"@ {
    } else {
        match value {
            SpecFieldValue::Str(s) => {
                lemma_var_append_keys(st.vars, key, s);
            },
            _ => {},
        }
    }
}

proof fn lemma_apply_fields_keys(
    endpoint: Seq<char>,
    fields: Seq<(Seq<char>, SpecFieldValue)>,
    st: SpecAccum,
)
    requires
        var_keys(st.vars).no_duplicates(),
    ensures
        apply_fields(endpoint, fields, st) matches Ok(st2) ==> var_keys(
            st2.vars,
        ).no_duplicates(),
    decreases fields.len(),
{
    if fields.len() == 0 {
    } else {
        lemma_apply_field_keys(endpoint, fields[0].0, fields[0].1, st);
        match apply_field(endpoint, fields[0].0, fields[0].1, st) {
            Ok(st1) => {
                lemma_apply_fields_keys(endpoint, fields.subrange(1, fields.len() as int), st1);
            },
            Err(_) => {},
        }
    }
}

proof fn lemma_accumulate_from_keys(
    cfg: Seq<(Seq<char>, SpecRootValue)>,
    endpoints: Seq<Seq<char>>,
    st: SpecAccum,
)
    requires
        var_keys(st.vars).no_duplicates(),
    ensures
        accumulate_from(cfg, endpoints, st) matches Ok(st2) ==> var_keys(
            st2.vars,
        ).no_duplicates(),
    decreases endpoints.len(),
{
    if endpoints.len() == 0 {
    } else {
        match lookup(cfg, endpoints[0]) {
            Some(SpecRootValue::Entry(fields)) => {
                lemma_apply_fields_keys(endpoints[0], fields, st);
            },
            _ => {},
        }
        match apply_endpoint(cfg, endpoints[0], st) {
            Ok(st1) => {
                lemma_accumulate_from_keys(
                    cfg,
                    endpoints.subrange(1, endpoints.len() as int),
                    st1,
                );
            },
            Err(_) => {},
        }
    }
}

/// Law: the accumulated variable names are distinct, so the profile emits
/// exactly one export line for each variable.
pub proof fn lemma_vars_emitted_once(cfg: Seq<(Seq<char>, SpecRootValue)>, endpoints: Seq<Seq<char>>)
    ensures
        spec_accumulate(cfg, endpoints) matches Ok(st) ==> var_keys(st.vars).no_duplicates(),
{
    assert(var_keys(empty_accum().vars) =~= Seq::<Seq<char>>::empty());
    lemma_accumulate_from_keys(cfg, endpoints, empty_accum());
}

/// Ghost state of exec accumulator parts.
pub open spec fn state_of(
    runtime: Option<String>,
    vars: Seq<(String, String)>,
    conflicts: Seq<String>,
) -> SpecAccum {
    SpecAccum {
        runtime: runtime.deep_view(),
        vars: vars.map_values(|p: (String, String)| (p.0@, p.1@)),
        conflicts: conflicts.map_values(|s: String| s@),
    }
}

/// The merged environment contributions of the resolved endpoints.
pub struct Accum {
    /// The isolated-runtime reference: the first declaration seen.
    pub runtime: Option<String>,
    /// Variable contributions in first-contribution order, each with its
    /// colon-joined values.
    pub vars: Vec<(String, String)>,
    /// The endpoints whose isolated-runtime declaration was discarded.
    pub conflicts: Vec<String>,
}

impl View for Accum {
    type V = SpecAccum;

    open spec fn view(&self) -> SpecAccum {
        state_of(self.runtime, self.vars@, self.conflicts@)
    }
}

/// Index of the first binding of `key` in the accumulated variables, if any.
fn find_var(vars: &Vec<(String, String)>, key: &String) -> (r: Option<usize>)
    ensures
        ({
            let vs = vars@.map_values(|p: (String, String)| (p.0@, p.1@));
            match r {
                Some(i) => var_index(vs, key@) == Some(i as int),
                None => var_index(vs, key@) is None,
            }
        }),
{
    let ghost vs = vars@.map_values(|p: (String, String)| (p.0@, p.1@));
    let n = vars.len();
    let mut i: usize = 0;
    while i < n
        invariant
            n == vars.len(),
            i <= n,
            vs == vars@.map_values(|p: (String, String)| (p.0@, p.1@)),
            forall|m: int| 0 <= m < i ==> (#[trigger] vs[m]).0 != key@,
        decreases n - i,
    {
        if vars[i].0 == *key {
            proof {
                lemma_var_index(vs, key@);
                assert(vs[i as int].0 == key@);
            }
            return Some(i);
        }
        i = i + 1;
    }
    proof {
        lemma_var_index(vs, key@);
    }
    None
}

/// Merge each resolved endpoint's declared environment contributions, in the
/// order given. Path-like variables accumulate colon-joined values in
/// first-contribution order; the isolated-runtime reference keeps the first
/// declaration and records every later one as a conflict; `require` fields
/// are skipped. The failures are an endpoint whose root value is not a table
/// and a contribution that is not a string.
pub fn accumulate(cfg: &Config, endpoints: &Vec<String>) -> (r: Result<Accum, ConfigError>)
    ensures
        match r {
            Ok(a) => spec_accumulate(cfg@, endpoints.deep_view()) == Ok::<
                SpecAccum,
                SpecConfigError,
            >(a@),
            Err(e) => spec_accumulate(cfg@, endpoints.deep_view()) == Err::<
                SpecAccum,
                SpecConfigError,
            >(e@),
        },
{
    let ghost eps = endpoints.deep_view();
    let require_key: String = String::from_str("require");
    let conda_key: String = String::from_str("conda");
    let mut runtime: Option<String> = None;
    let mut vars: Vec<(String, String)> = Vec::new();
    let mut conflicts: Vec<String> = Vec::new();
    proof {
        assert(eps.skip(0) =~= eps);
        assert(state_of(runtime, vars@, conflicts@).vars =~= empty_accum().vars);
        assert(state_of(runtime, vars@, conflicts@).conflicts =~= empty_accum().conflicts);
        assert(state_of(runtime, vars@, conflicts@) == empty_accum());
    }
    let mut i: usize = 0;
    while i < endpoints.len()
        invariant
            i <= endpoints.len(),
            eps == endpoints.deep_view(),
            require_key@ == "require"@,
            conda_key@ == "conda"@,
            accumulate_from(cfg@, eps, empty_accum()) == accumulate_from(
                cfg@,
                eps.skip(i as int),
                state_of(runtime, vars@, conflicts@),
            ),
        decreases endpoints.len() - i,
    {
        let ep = endpoints[i].clone();
        assert(ep@ == eps[i as int]);
        let ghost st0 = state_of(runtime, vars@, conflicts@);
        proof {
            assert(eps.skip(i as int)[0] == eps[i as int]);
            assert(eps.skip(i as int).subrange(1, eps.skip(i as int).len() as int) =~= eps.skip(
                i as int + 1,
            ));
        }
        match cfg.get(&ep) {
            None => {
                assert(apply_endpoint(cfg@, ep@, st0) == Ok::<SpecAccum, SpecConfigError>(st0));
            },
            Some(rv) => match rv {
                RootValue::Str(_) | RootValue::Other => {
                    let e = ConfigError::EntryNotTable { endpoint: ep };
                    proof {
                        assert(apply_endpoint(cfg@, eps[i as int], st0) == Err::<
                            SpecAccum,
                            SpecConfigError,
                        >(e@));
                    }
                    return Err(e);
                },
                RootValue::Entry(fields) => {
                    let ghost fs = fields@.map_values(|p: (String, FieldValue)| (p.0@, p.1@));
                    proof {
                        assert(lookup(cfg@, ep@) == Some(SpecRootValue::Entry(fs)));
                        assert(apply_endpoint(cfg@, eps[i as int], st0) == apply_fields(
                            ep@,
                            fs,
                            st0,
                        ));
                        assert(fs.skip(0) =~= fs);
                    }
                    let mut j: usize = 0;
                    while j < fields.len()
                        invariant
                            j <= fields.len(),
                            eps == endpoints.deep_view(),
                            i < eps.len(),
                            ep@ == eps[i as int],
                            require_key@ == "require"@,
                            conda_key@ == "conda"@,
                            fs == fields@.map_values(|p: (String, FieldValue)| (p.0@, p.1@)),
                            apply_fields(ep@, fs, st0) == apply_fields(
                                ep@,
                                fs.skip(j as int),
                                state_of(runtime, vars@, conflicts@),
                            ),
                            accumulate_from(cfg@, eps, empty_accum()) == (match apply_fields(
                                ep@,
                                fs,
                                st0,
                            ) {
                                Ok(st2) => accumulate_from(cfg@, eps.skip(i as int + 1), st2),
                                Err(e) => Err(e),
                            }),
                        decreases fields.len() - j,
                    {
                        let key = fields[j].0.clone();
                        let ghost pre = state_of(runtime, vars@, conflicts@);
                        proof {
                            assert(fs[j as int] == (fields@[j as int].0@, fields@[j as int].1@));
                            assert(key@ == fs[j as int].0);
                            assert(fs.skip(j as int)[0] == fs[j as int]);
                            assert(fs.skip(j as int).subrange(
                                1,
                                fs.skip(j as int).len() as int,
                            ) =~= fs.skip(j as int + 1));
                        }
                        if key == require_key {
                            assert(apply_field(ep@, fs[j as int].0, fs[j as int].1, pre) == Ok::<
                                SpecAccum,
                                SpecConfigError,
                            >(pre));
                        } else if key == conda_key {
                            let taken = match &runtime {
                                Some(_) => true,
                                None => false,
                            };
                            if taken {
                                conflicts.push(ep.clone());
                                proof {
                                    assert(state_of(runtime, vars@, conflicts@).conflicts
                                        =~= pre.conflicts.push(ep@));
                                    assert(state_of(runtime, vars@, conflicts@) == SpecAccum {
                                        runtime: pre.runtime,
                                        vars: pre.vars,
                                        conflicts: pre.conflicts.push(ep@),
                                    });
                                    assert(apply_field(ep@, fs[j as int].0, fs[j as int].1, pre)
                                        == Ok::<SpecAccum, SpecConfigError>(
                                        state_of(runtime, vars@, conflicts@),
                                    ));
                                }
                            } else {
                                match &fields[j].1 {
                                    FieldValue::Str(s) => {
                                        runtime = Some(s.clone());
                                        proof {
                                            assert(fs[j as int].1 == SpecFieldValue::Str(s@));
                                            assert(state_of(runtime, vars@, conflicts@)
                                                == SpecAccum {
                                                runtime: Some(s@),
                                                vars: pre.vars,
                                                conflicts: pre.conflicts,
                                            });
                                            assert(apply_field(
                                                ep@,
                                                fs[j as int].0,
                                                fs[j as int].1,
                                                pre,
                                            ) == Ok::<SpecAccum, SpecConfigError>(
                                                state_of(runtime, vars@, conflicts@),
                                            ));
                                        }
                                    },
                                    _ => {
                                        let e = ConfigError::FieldNotString {
                                            endpoint: ep,
                                            key: key,
                                        };
                                        proof {
                                            assert(apply_field(
                                                e@->FieldNotString_endpoint,
                                                fs[j as int].0,
                                                fs[j as int].1,
                                                pre,
                                            ) == Err::<SpecAccum, SpecConfigError>(e@));
                                        }
                                        return Err(e);
                                    },
                                }
                            }
                        } else {
                            match &fields[j].1 {
                                FieldValue::Str(s) => {
                                    proof {
                                        assert(fs[j as int].1 == SpecFieldValue::Str(s@));
                                    }
                                    let ghost vs = vars@.map_values(
                                        |p: (String, String)| (p.0@, p.1@),
                                    );
                                    match find_var(&vars, &key) {
                                        Some(idx) => {
                                            proof {
                                                lemma_var_index(vs, key@);
                                            }
                                            let mut nv = vars[idx].1.clone();
                                            nv.append(":");
                                            nv.append(s.as_str());
                                            let k0 = vars[idx].0.clone();
                                            vars[idx] = (k0, nv);
                                            proof {
                                                reveal_strlit(":");
                                                assert(":"@ =~= seq![':']);
                                                assert(vars@.map_values(
                                                    |p: (String, String)| (p.0@, p.1@),
                                                ) =~= vs.update(
                                                    idx as int,
                                                    (
                                                        vs[idx as int].0,
                                                        joined(vs[idx as int].1, s@),
                                                    ),
                                                ));
                                                assert(state_of(runtime, vars@, conflicts@)
                                                    == SpecAccum {
                                                    runtime: pre.runtime,
                                                    vars: var_append(pre.vars, key@, s@),
                                                    conflicts: pre.conflicts,
                                                });
                                            }
                                        },
                                        None => {
                                            vars.push((key.clone(), s.clone()));
                                            proof {
                                                assert(vars@.map_values(
                                                    |p: (String, String)| (p.0@, p.1@),
                                                ) =~= vs.push((key@, s@)));
                                                assert(state_of(runtime, vars@, conflicts@)
                                                    == SpecAccum {
                                                    runtime: pre.runtime,
                                                    vars: var_append(pre.vars, key@, s@),
                                                    conflicts: pre.conflicts,
                                                });
                                            }
                                        },
                                    }
                                    assert(apply_field(ep@, fs[j as int].0, fs[j as int].1, pre)
                                        == Ok::<SpecAccum, SpecConfigError>(
                                        state_of(runtime, vars@, conflicts@),
                                    ));
                                },
                                _ => {
                                    let e = ConfigError::FieldNotString { endpoint: ep, key: key };
                                    proof {
                                        assert(apply_field(
                                            e@->FieldNotString_endpoint,
                                            fs[j as int].0,
                                            fs[j as int].1,
                                            pre,
                                        ) == Err::<SpecAccum, SpecConfigError>(e@));
                                    }
                                    return Err(e);
                                },
                            }
                        }
                        j = j + 1;
                    }
                    proof {
                        assert(fs.skip(fields@.len() as int) =~= Seq::<
                            (Seq<char>, SpecFieldValue),
                        >::empty());
                        assert(apply_fields(ep@, fs, st0) == Ok::<SpecAccum, SpecConfigError>(
                            state_of(runtime, vars@, conflicts@),
                        ));
                    }
                },
            },
        }
        i = i + 1;
    }
    proof {
        assert(eps.skip(endpoints@.len() as int) =~= Seq::<Seq<char>>::empty());
    }
    Ok(Accum { runtime, vars, conflicts })
}

/// The base path for the isolated runtime: the root `conda` setting when it
/// is a string, a fixed fallback when it is absent, and a fatal error when
/// it is present with another shape.
pub fn base_runtime_path(cfg: &Config) -> (r: Result<String, ConfigError>)
    ensures
        match r {
            Ok(p) => match lookup(cfg@, "conda"@) {
                None => p@ == "$HOME/conda"@,
                Some(SpecRootValue::Str(s)) => p@ == s,
                Some(_) => false,
            },
            Err(e) => {
                &&& e@ == SpecConfigError::BasePathNotString
                &&& lookup(cfg@, "conda"@) is Some
                &&& !(lookup(cfg@, "conda"@) matches Some(SpecRootValue::Str(_)))
            },
        },
{
    let conda_key: String = String::from_str("conda");
    match cfg.get(&conda_key) {
        None => Ok(String::from_str("$HOME/conda")),
        Some(rv) => match rv {
            RootValue::Str(s) => Ok(s.clone()),
            _ => Err(ConfigError::BasePathNotString),
        },
    }
}

/// One quoted name.
pub open spec fn quoted(name: Seq<char>) -> Seq<char> {
    seq!['"'] + name + seq!['"']
}

/// The quoted names, comma-separated.
pub open spec fn quoted_list(names: Seq<Seq<char>>) -> Seq<char>
    decreases names.len(),
{
    if names.len() == 0 {
        Seq::empty()
    } else if names.len() == 1 {
        quoted(names[0])
    } else {
        quoted_list(names.drop_last()) + ", "@ + quoted(names.last())
    }
}

/// The header comment line recording the configuration source and the full
/// resolved endpoint set.
pub open spec fn spec_header(config_path: Seq<char>, endpoints: Seq<Seq<char>>) -> Seq<char> {
    "# software config is \""@ + config_path + "\" activate modules {"@ + quoted_list(endpoints)
        + "}\n"@
}

/// The isolated-runtime activation line, when a reference was recorded.
pub open spec fn spec_activation(base: Seq<char>, runtime: Option<Seq<char>>) -> Seq<char> {
    match runtime {
        Some(env) => "source "@ + base + "/bin/activate "@ + env + "\n"@,
        None => Seq::empty(),
    }
}

/// One export line: the new contributions are prepended ahead of any
/// pre-existing shell value of the variable.
pub open spec fn export_line(name: Seq<char>, value: Seq<char>) -> Seq<char> {
    "export "@ + name + "="@ + value + ":$"@ + name + "\n"@
}

/// All export lines, one per accumulated variable, in first-contribution
/// order.
pub open spec fn spec_exports(vars: Seq<(Seq<char>, Seq<char>)>) -> Seq<char>
    decreases vars.len(),
{
    if vars.len() == 0 {
        Seq::empty()
    } else {
        spec_exports(vars.drop_last()) + export_line(vars.last().0, vars.last().1)
    }
}

/// The whole profile text: header, activation line when a runtime was
/// recorded, then the export lines.
pub open spec fn spec_profile(
    config_path: Seq<char>,
    endpoints: Seq<Seq<char>>,
    base: Seq<char>,
    st: SpecAccum,
) -> Seq<char> {
    spec_header(config_path, endpoints) + spec_activation(base, st.runtime) + spec_exports(st.vars)
}

/// Render the profile text for an accumulated state.
pub fn render_profile(
    config_path: &String,
    endpoints: &Vec<String>,
    base: &String,
    accum: &Accum,
) -> (r: String)
    ensures
        r@ == spec_profile(config_path@, endpoints.deep_view(), base@, accum@),
{
    let ghost eps = endpoints.deep_view();
    let mut out: String = String::from_str("# software config is \"");
    out.append(config_path.as_str());
    out.append("\" activate modules {");
    proof {
        assert(eps.take(0) =~= Seq::<Seq<char>>::empty());
    }
    let ghost prefix = out@;
    let mut i: usize = 0;
    while i < endpoints.len()
        invariant
            i <= endpoints.len(),
            eps == endpoints.deep_view(),
            prefix == "# software config is \""@ + config_path@ + "\" activate modules {"@,
            out@ == prefix + quoted_list(eps.take(i as int)),
        decreases endpoints.len() - i,
    {
        if i > 0 {
            out.append(", ");
        }
        out.append("\"");
        out.append(endpoints[i].as_str());
        out.append("\"");
        proof {
            reveal_strlit("\"");
            assert("\""@ =~= seq!['"']);
            assert(eps.take(i as int + 1).drop_last() =~= eps.take(i as int));
            assert(eps.take(i as int + 1).last() == eps[i as int]);
            assert(out@ =~= prefix + quoted_list(eps.take(i as int + 1)));
        }
        i = i + 1;
    }
    out.append("}\n");
    proof {
        assert(eps.take(endpoints@.len() as int) =~= eps);
        assert(out@ =~= spec_header(config_path@, eps));
    }
    let ghost head = out@;
    match &accum.runtime {
        Some(env) => {
            out.append("source ");
            out.append(base.as_str());
            out.append("/bin/activate ");
            out.append(env.as_str());
            out.append("\n");
            assert(out@ =~= head + spec_activation(base@, accum@.runtime));
        },
        None => {
            assert(out@ =~= head + spec_activation(base@, accum@.runtime));
        },
    }
    let ghost head2 = out@;
    proof {
        assert(accum@.vars.take(0) =~= Seq::<(Seq<char>, Seq<char>)>::empty());
        assert(out@ =~= head2 + spec_exports(accum@.vars.take(0)));
    }
    let mut k: usize = 0;
    while k < accum.vars.len()
        invariant
            k <= accum.vars.len(),
            head2 == spec_header(config_path@, endpoints.deep_view()) + spec_activation(
                base@,
                accum@.runtime,
            ),
            out@ == head2 + spec_exports(accum@.vars.take(k as int)),
        decreases accum.vars.len() - k,
    {
        out.append("export ");
        out.append(accum.vars[k].0.as_str());
        out.append("=");
        out.append(accum.vars[k].1.as_str());
        out.append(":$");
        out.append(accum.vars[k].0.as_str());
        out.append("\n");
        proof {
            assert(accum@.vars[k as int] == (accum.vars@[k as int].0@, accum.vars@[k as int].1@));
            assert(accum@.vars.take(k as int + 1).drop_last() =~= accum@.vars.take(k as int));
            assert(accum@.vars.take(k as int + 1).last() == accum@.vars[k as int]);
            assert(out@ =~= head2 + spec_exports(accum@.vars.take(k as int + 1)));
        }
        k = k + 1;
    }
    proof {
        assert(accum@.vars.take(accum.vars@.len() as int) =~= accum@.vars);
        assert(out@ =~= spec_profile(config_path@, eps, base@, accum@));
    }
    out
}

/// The base path for the isolated runtime, as the document gives it: the
/// root `conda` setting when it is a string, the fixed fallback when absent.
pub open spec fn spec_base(cfg: Seq<(Seq<char>, SpecRootValue)>) -> Result<
    Seq<char>,
    SpecConfigError,
> {
    match lookup(cfg, "conda"@) {
        None => Ok("$HOME/conda"@),
        Some(SpecRootValue::Str(s)) => Ok(s),
        Some(_) => Err(SpecConfigError::BasePathNotString),
    }
}

/// The emitted profile text and the conflict list, or the first fatal
/// configuration error: a malformed base path, then the fold's own errors.
pub open spec fn spec_emit(
    cfg: Seq<(Seq<char>, SpecRootValue)>,
    config_path: Seq<char>,
    endpoints: Seq<Seq<char>>,
) -> Result<(Seq<char>, Seq<Seq<char>>), SpecConfigError> {
    match spec_base(cfg) {
        Err(e) => Err(e),
        Ok(base) => match spec_accumulate(cfg, endpoints) {
            Err(e) => Err(e),
            Ok(st) => Ok((spec_profile(config_path, endpoints, base, st), st.conflicts)),
        },
    }
}

/// Law: with zero endpoints the emitted profile is the header line alone,
/// with no conflicts.
pub proof fn lemma_empty_request_emits_header(
    cfg: Seq<(Seq<char>, SpecRootValue)>,
    config_path: Seq<char>,
)
    requires
        spec_base(cfg) is Ok,
    ensures
        spec_emit(cfg, config_path, Seq::empty()) == Ok::<
            (Seq<char>, Seq<Seq<char>>),
            SpecConfigError,
        >((spec_header(config_path, Seq::empty()), Seq::<Seq<char>>::empty())),
{
    assert(spec_accumulate(cfg, Seq::empty()) == Ok::<SpecAccum, SpecConfigError>(empty_accum()));
    assert(spec_profile(config_path, Seq::empty(), spec_base(cfg)->Ok_0, empty_accum())
        =~= spec_header(config_path, Seq::empty()));
}

/// The emitted profile: its text, and the endpoints whose isolated-runtime
/// declaration was discarded as a conflict (reported as warnings, not fatal).
pub struct Profile {
    pub text: String,
    pub conflicts: Vec<String>,
}

/// Emit the profile for the resolved endpoints: determine the base runtime
/// path, merge every endpoint's contributions, and render the profile text.
pub fn emit(cfg: &Config, config_path: &String, endpoints: &Vec<String>) -> (r: Result<
    Profile,
    ConfigError,
>)
    ensures
        match r {
            Ok(p) => spec_emit(cfg@, config_path@, endpoints.deep_view()) == Ok::<
                (Seq<char>, Seq<Seq<char>>),
                SpecConfigError,
            >((p.text@, p.conflicts@.map_values(|s: String| s@))),
            Err(e) => spec_emit(cfg@, config_path@, endpoints.deep_view()) == Err::<
                (Seq<char>, Seq<Seq<char>>),
                SpecConfigError,
            >(e@),
        },
{
    let base = match base_runtime_path(cfg) {
        Ok(b) => b,
        Err(e) => {
            return Err(e);
        },
    };
    let accum = match accumulate(cfg, endpoints) {
        Ok(a) => a,
        Err(e) => {
            return Err(e);
        },
    };
    let text = render_profile(config_path, endpoints, &base, &accum);
    Ok(Profile { text, conflicts: accum.conflicts })
}

} // verus!

