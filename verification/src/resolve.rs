//! The closure resolver: given a configuration document and the requested
//! endpoint names, computes the least set of endpoints that contains the
//! request and is closed under the `require` relation.

use crate::config::{
    entry_get, field_lookup, lookup, Config, ConfigError, FieldValue, RootValue, SpecFieldValue,
    SpecRootValue,
};
use vstd::prelude::*;
use vstd::string::StringExecFns;

verus! {

broadcast use {
    vstd::seq_lib::seq_to_set_is_finite,
    vstd::seq_lib::group_seq_properties,
    vstd::prelude::Seq::lemma_push_to_set_commute,
};

/// The names that `name`'s entry declares in a well-formed `require` list;
/// empty when `name` has no entry, no `require` field, or a malformed one.
pub open spec fn requires_of(cfg: Seq<(Seq<char>, SpecRootValue)>, name: Seq<char>) -> Set<
    Seq<char>,
> {
    match lookup(cfg, name) {
        Some(SpecRootValue::Entry(fields)) => match field_lookup(fields, "require"@) {
            Some(SpecFieldValue::List(names)) => names.to_set(),
            _ => Set::empty(),
        },
        _ => Set::empty(),
    }
}

/// `name` has an entry with a `require` field that is not a list of strings.
pub open spec fn bad_require(cfg: Seq<(Seq<char>, SpecRootValue)>, name: Seq<char>) -> bool {
    match lookup(cfg, name) {
        Some(SpecRootValue::Entry(fields)) => match field_lookup(fields, "require"@) {
            Some(SpecFieldValue::List(_)) => false,
            Some(_) => true,
            None => false,
        },
        _ => false,
    }
}

/// Every member's requirements are again members.
pub open spec fn closed(cfg: Seq<(Seq<char>, SpecRootValue)>, s: Set<Seq<char>>) -> bool {
    forall|n: Seq<char>| s.contains(n) ==> requires_of(cfg, n).subset_of(s)
}

/// `c` is the least set that contains `s` and is closed under `require`.
pub open spec fn is_closure(
    cfg: Seq<(Seq<char>, SpecRootValue)>,
    s: Set<Seq<char>>,
    c: Set<Seq<char>>,
) -> bool {
    &&& s.subset_of(c)
    &&& closed(cfg, c)
    &&& forall|d: Set<Seq<char>>|
        s.subset_of(d) && #[trigger] closed(cfg, d) ==> c.subset_of(d)
}

/// Every name one configuration pair mentions: its key, and the names in a
/// well-formed `require` list of its entry.
spec fn pair_mentions(p: (Seq<char>, SpecRootValue)) -> Set<Seq<char>> {
    set![p.0].union(
        match p.1 {
            SpecRootValue::Entry(fields) => match field_lookup(fields, "require"@) {
                Some(SpecFieldValue::List(names)) => names.to_set(),
                _ => Set::empty(),
            },
            _ => Set::empty(),
        },
    )
}

/// Every name the configuration mentions anywhere.
spec fn mentioned(cfg: Seq<(Seq<char>, SpecRootValue)>) -> Set<Seq<char>>
    decreases cfg.len(),
{
    if cfg.len() == 0 {
        Set::empty()
    } else {
        pair_mentions(cfg[0]).union(mentioned(cfg.subrange(1, cfg.len() as int)))
    }
}

proof fn lemma_mentioned_finite(cfg: Seq<(Seq<char>, SpecRootValue)>)
    ensures
        mentioned(cfg).finite(),
    decreases cfg.len(),
{
    if cfg.len() == 0 {
    } else {
        lemma_mentioned_finite(cfg.subrange(1, cfg.len() as int));
    }
}

proof fn lemma_requires_of_mentioned(cfg: Seq<(Seq<char>, SpecRootValue)>, name: Seq<char>)
    ensures
        requires_of(cfg, name).subset_of(mentioned(cfg)),
    decreases cfg.len(),
{
    if cfg.len() == 0 {
    } else if cfg[0].0 == name {
        assert(requires_of(cfg, name).subset_of(pair_mentions(cfg[0])));
    } else {
        let tail = cfg.subrange(1, cfg.len() as int);
        lemma_requires_of_mentioned(tail, name);
        assert(requires_of(cfg, name) == requires_of(tail, name));
    }
}

proof fn lemma_bounded_len(s: Seq<Seq<char>>, u: Set<Seq<char>>)
    requires
        s.no_duplicates(),
        u.finite(),
        forall|k: int| 0 <= k < s.len() ==> u.contains(#[trigger] s[k]),
    ensures
        s.len() <= u.len(),
{
    s.unique_seq_to_set();
    assert forall|x: Seq<char>| s.to_set().contains(x) implies u.contains(x) by {
        let k = choose|k: int| 0 <= k < s.len() && s[k] == x;
        assert(u.contains(s[k]));
    }
    vstd::set_lib::lemma_len_subset(s.to_set(), u);
}

/// Law: the empty request resolves to the empty set.
pub proof fn lemma_empty_request_resolves_empty(cfg: Seq<(Seq<char>, SpecRootValue)>)
    ensures
        is_closure(cfg, Set::empty(), Set::empty()),
{
    assert(Set::<Seq<char>>::empty().subset_of(Set::empty()));
}

/// Law: the resolved closure contains every requested endpoint.
pub proof fn lemma_closure_superset(
    cfg: Seq<(Seq<char>, SpecRootValue)>,
    s: Set<Seq<char>>,
    c: Set<Seq<char>>,
)
    requires
        is_closure(cfg, s, c),
    ensures
        s.subset_of(c),
{
}

/// Law: resolution is idempotent — the closure of a closure is itself, so
/// resolving an already-resolved set changes nothing.
pub proof fn lemma_closure_idempotent(
    cfg: Seq<(Seq<char>, SpecRootValue)>,
    s: Set<Seq<char>>,
    c: Set<Seq<char>>,
    d: Set<Seq<char>>,
)
    requires
        is_closure(cfg, s, c),
        is_closure(cfg, c, d),
    ensures
        d == c,
{
    assert(closed(cfg, c));
    assert(c.subset_of(c));
    assert(d.subset_of(c));
    assert(c.subset_of(d));
    assert(d =~= c);
}

/// Whether `name` already stands among the names in `v`.
fn contains_name(v: &Vec<String>, name: &String) -> (r: bool)
    ensures
        r == v.deep_view().contains(name@),
{
    let n = v.len();
    let mut i: usize = 0;
    while i < n
        invariant
            n == v.len(),
            i <= n,
            forall|k: int| 0 <= k < i ==> v.deep_view()[k] != name@,
        decreases n - i,
    {
        if v[i] == *name {
            assert(v.deep_view()[i as int] == name@);
            return true;
        }
        i = i + 1;
    }
    assert(!v.deep_view().contains(name@));
    false
}

/// Resolve the requested endpoints to the full transitive set of endpoints
/// required, including transitively required dependencies. Names without an
/// entry are kept as leaves; cycles and self-references are harmless. The
/// only failure is an entry whose `require` field is not a list of strings.
pub fn resolve(cfg: &Config, requested: &Vec<String>) -> (r: Result<Vec<String>, ConfigError>)
    ensures
        match r {
            Ok(v) => {
                &&& v.deep_view().no_duplicates()
                &&& is_closure(cfg@, requested.deep_view().to_set(), v.deep_view().to_set())
                &&& forall|n: Seq<char>|
                    v.deep_view().to_set().contains(n) ==> !bad_require(cfg@, n)
            },
            Err(e) => {
                &&& e@ matches crate::config::SpecConfigError::RequireNotList { endpoint }
                &&& bad_require(cfg@, e@->RequireNotList_endpoint)
                &&& forall|d: Set<Seq<char>>|
                    requested.deep_view().to_set().subset_of(d) && #[trigger] closed(cfg@, d)
                        ==> d.contains(e@->RequireNotList_endpoint)
            },
        },
{
    let ghost rq = requested.deep_view().to_set();
    let ghost u = rq.union(mentioned(cfg@));
    proof {
        lemma_mentioned_finite(cfg@);
        assert(u.finite());
    }
    let require_key: String = String::from_str("require");
    let mut result: Vec<String> = Vec::new();

    // Seed the working list with the requested names, dropping duplicates.
    let mut j: usize = 0;
    while j < requested.len()
        invariant
            j <= requested.len(),
            rq == requested.deep_view().to_set(),
            u == rq.union(mentioned(cfg@)),
            u.finite(),
            result.deep_view().no_duplicates(),
            forall|k: int| 0 <= k < result.deep_view().len() ==> rq.contains(
                #[trigger] result.deep_view()[k],
            ),
            forall|m: int| 0 <= m < j ==> result.deep_view().contains(
                #[trigger] requested.deep_view()[m],
            ),
        decreases requested.len() - j,
    {
        let name = requested[j].clone();
        assert(name@ == requested.deep_view()[j as int]);
        if !contains_name(&result, &name) {
            let ghost pre = result.deep_view();
            result.push(name);
            assert(result.deep_view() =~= pre.push(requested.deep_view()[j as int]));
        }
        j = j + 1;
    }
    proof {
        assert forall|k: int|
            0 <= k < result.deep_view().len() implies u.contains(
            #[trigger] result.deep_view()[k],
        ) by {
            assert(rq.contains(result.deep_view()[k]));
        }
        lemma_bounded_len(result.deep_view(), u);
        assert(rq.subset_of(result.deep_view().to_set())) by {
            assert forall|x: Seq<char>| rq.contains(x) implies result.deep_view().to_set().contains(
                x,
            ) by {
                let m = choose|m: int|
                    0 <= m < requested.deep_view().len() && requested.deep_view()[m] == x;
                assert(result.deep_view().contains(requested.deep_view()[m]));
            }
        }
    }

    // Expand: each member's requirements join the working list; members past
    // the cursor are still to be examined.
    let mut i: usize = 0;
    while i < result.len()
        invariant
            rq == requested.deep_view().to_set(),
            u == rq.union(mentioned(cfg@)),
            u.finite(),
            require_key@ == "require"@,
            i <= result.deep_view().len(),
            result.deep_view().len() <= u.len(),
            result.deep_view().no_duplicates(),
            forall|k: int| 0 <= k < result.deep_view().len() ==> u.contains(
                #[trigger] result.deep_view()[k],
            ),
            rq.subset_of(result.deep_view().to_set()),
            forall|d: Set<Seq<char>>|
                rq.subset_of(d) && #[trigger] closed(cfg@, d) ==> result.deep_view(
                ).to_set().subset_of(d),
            forall|k: int| 0 <= k < i ==> requires_of(
                cfg@,
                #[trigger] result.deep_view()[k],
            ).subset_of(result.deep_view().to_set()),
            forall|k: int| 0 <= k < i ==> !bad_require(cfg@, #[trigger] result.deep_view()[k]),
        decreases u.len() - i,
    {
        let ep = result[i].clone();
        assert(ep@ == result.deep_view()[i as int]);
        assert(result.deep_view().to_set().contains(ep@));
        match cfg.get(&ep) {
            None => {
                assert(requires_of(cfg@, ep@) =~= Set::empty());
            },
            Some(rv) => match rv {
                RootValue::Str(_) | RootValue::Other => {
                    assert(requires_of(cfg@, ep@) =~= Set::empty());
                },
                RootValue::Entry(fields) => {
                    let ghost fs = fields@.map_values(
                        |p: (String, FieldValue)| (p.0@, p.1@),
                    );
                    assert(lookup(cfg@, ep@) == Some(SpecRootValue::Entry(fs)));
                    match entry_get(fields, &require_key) {
                        None => {
                            assert(requires_of(cfg@, ep@) =~= Set::empty());
                        },
                        Some(fv) => match fv {
                            FieldValue::List(names) => {
                                assert(requires_of(cfg@, ep@) == names.deep_view().to_set());
                                proof {
                                    lemma_requires_of_mentioned(cfg@, ep@);
                                }
                                let mut k: usize = 0;
                                while k < names.len()
                                    invariant
                                        rq == requested.deep_view().to_set(),
                                        u == rq.union(mentioned(cfg@)),
                                        u.finite(),
                                        require_key@ == "require"@,
                                        k <= names.len(),
                                        i < result.deep_view().len(),
                                        result.deep_view()[i as int] == ep@,
                                        requires_of(cfg@, ep@) == names.deep_view().to_set(),
                                        requires_of(cfg@, ep@).subset_of(u),
                                        result.deep_view().no_duplicates(),
                                        forall|m: int| 0 <= m < result.deep_view().len()
                                            ==> u.contains(#[trigger] result.deep_view()[m]),
                                        rq.subset_of(result.deep_view().to_set()),
                                        forall|d: Set<Seq<char>>|
                                            rq.subset_of(d) && #[trigger] closed(cfg@, d)
                                                ==> result.deep_view().to_set().subset_of(d),
                                        forall|m: int| 0 <= m < i ==> requires_of(
                                            cfg@,
                                            #[trigger] result.deep_view()[m],
                                        ).subset_of(result.deep_view().to_set()),
                                        forall|m: int| 0 <= m < i ==> !bad_require(
                                            cfg@,
                                            #[trigger] result.deep_view()[m],
                                        ),
                                        forall|m: int| 0 <= m < k ==> result.deep_view(
                                        ).to_set().contains(#[trigger] names.deep_view()[m]),
                                    decreases names.len() - k,
                                {
                                    let name = names[k].clone();
                                    assert(name@ == names.deep_view()[k as int]);
                                    assert(requires_of(cfg@, ep@).contains(name@));
                                    if !contains_name(&result, &name) {
                                        let ghost pre = result.deep_view();
                                        result.push(name);
                                        assert(result.deep_view() =~= pre.push(
                                            names.deep_view()[k as int],
                                        ));
                                        assert(u.contains(names.deep_view()[k as int]));
                                        proof {
                                            assert forall|d: Set<Seq<char>>|
                                                rq.subset_of(d) && #[trigger] closed(cfg@, d)
                                                    implies result.deep_view(
                                                ).to_set().subset_of(d) by {
                                                assert(pre.to_set().subset_of(d));
                                                assert(d.contains(ep@));
                                                assert(requires_of(cfg@, ep@).subset_of(d));
                                                assert forall|x: Seq<char>|
                                                    result.deep_view().to_set().contains(x)
                                                        implies d.contains(x) by {
                                                    if pre.to_set().contains(x) {
                                                    } else {
                                                        assert(x == names.deep_view()[k as int]);
                                                    }
                                                }
                                            }
                                        }
                                    }
                                    assert(result.deep_view().to_set().contains(
                                        names.deep_view()[k as int],
                                    ));
                                    k = k + 1;
                                }
                                proof {
                                    assert forall|x: Seq<char>|
                                        requires_of(cfg@, ep@).contains(x) implies result.deep_view(
                                    ).to_set().contains(x) by {
                                        let m = choose|m: int|
                                            0 <= m < names.deep_view().len() && names.deep_view(
                                            )[m] == x;
                                        assert(result.deep_view().to_set().contains(
                                            names.deep_view()[m],
                                        ));
                                    }
                                }
                            },
                            FieldValue::Str(_) | FieldValue::Other => {
                                return Err(
                                    ConfigError::RequireNotList { endpoint: ep },
                                );
                            },
                        },
                    }
                },
            },
        }
        proof {
            lemma_bounded_len(result.deep_view(), u);
        }
        i = i + 1;
    }
    proof {
        assert(closed(cfg@, result.deep_view().to_set())) by {
            assert forall|n: Seq<char>|
                result.deep_view().to_set().contains(n) implies requires_of(
                cfg@,
                n,
            ).subset_of(result.deep_view().to_set()) by {
                let k = choose|k: int|
                    0 <= k < result.deep_view().len() && result.deep_view()[k] == n;
                assert(requires_of(cfg@, result.deep_view()[k]).subset_of(
                    result.deep_view().to_set(),
                ));
            }
        }
        assert forall|n: Seq<char>|
            result.deep_view().to_set().contains(n) implies !bad_require(cfg@, n) by {
            let k = choose|k: int| 0 <= k < result.deep_view().len() && result.deep_view()[k] == n;
            assert(!bad_require(cfg@, result.deep_view()[k]));
        }
        assert(result.deep_view().to_set().subset_of(result.deep_view().to_set()));
    }
    Ok(result)
}

} // verus!
