//! Redaction of the environment of the services of a resolved compose
//! config: values that `env_file:` resolved never pass through Komodo's
//! interpolator, so every value under `services.*.environment` is replaced
//! by a marker before the config is logged or stored.

use crate::text::{
    chars_equal, chars_of, find_char, first_index_of, split_once, string_of, sub_chars,
};
use crate::yaml::{lemma_yaml_views, yaml_pairs_view, yaml_seq_view, yaml_view, Yaml, YamlValue};
use vstd::string::StringExecFns;
use vstd::prelude::*;

verus! {

/// The text that stands in for a secret.
pub open spec fn redacted_marker() -> Seq<char> {
    "<redacted>"@
}

/// A node without its tags (`Value::untag`).
pub open spec fn untag(v: YamlValue) -> YamlValue
    decreases v,
{
    match v {
        YamlValue::Tagged(_, b) => untag(*b),
        _ => v,
    }
}

/// `Value::is_null`: null, under any tags.
pub open spec fn is_null_value(v: YamlValue) -> bool {
    untag(v) is Null
}

/// The position of the first entry whose key is the string `key`: a string
/// index finds only an untagged string key (`Mapping::get` on a `str`).
pub open spec fn first_key_index(ps: Seq<(YamlValue, YamlValue)>, key: Seq<char>) -> Option<nat>
    decreases ps.len(),
{
    if ps.len() == 0 {
        None
    } else if ps[0].0 == YamlValue::Str(key) {
        Some(0)
    } else {
        match first_key_index(ps.drop_first(), key) {
            Some(i) => Some(i + 1),
            None => None,
        }
    }
}

/// An environment with `fv` applied to each value of a mapping and `fe` to
/// each entry of a list; any other node is left alone.
pub open spec fn walk_environment(
    env: YamlValue,
    fv: spec_fn(YamlValue) -> YamlValue,
    fe: spec_fn(YamlValue) -> YamlValue,
) -> YamlValue {
    match env {
        YamlValue::Mapping(ps) => YamlValue::Mapping(
            ps.map_values(|p: (YamlValue, YamlValue)| (p.0, fv(p.1))),
        ),
        YamlValue::Sequence(es) => YamlValue::Sequence(es.map_values(|e: YamlValue| fe(e))),
        _ => env,
    }
}

/// A service with its `environment` walked: the service is looked at under
/// its tags, and must be a mapping with an `environment` key.
pub open spec fn walk_service(
    s: YamlValue,
    fv: spec_fn(YamlValue) -> YamlValue,
    fe: spec_fn(YamlValue) -> YamlValue,
) -> YamlValue
    decreases s,
{
    match s {
        YamlValue::Tagged(t, b) => YamlValue::Tagged(t, Box::new(walk_service(*b, fv, fe))),
        YamlValue::Mapping(ps) => match first_key_index(ps, "environment"@) {
            Some(i) => YamlValue::Mapping(
                ps.update(i as int, (ps[i as int].0, walk_environment(ps[i as int].1, fv, fe))),
            ),
            None => s,
        },
        _ => s,
    }
}

/// The `services` node with every service walked: it is looked at under its
/// tags, and must be a mapping.
pub open spec fn walk_services(
    s: YamlValue,
    fv: spec_fn(YamlValue) -> YamlValue,
    fe: spec_fn(YamlValue) -> YamlValue,
) -> YamlValue
    decreases s,
{
    match s {
        YamlValue::Tagged(t, b) => YamlValue::Tagged(t, Box::new(walk_services(*b, fv, fe))),
        YamlValue::Mapping(ps) => YamlValue::Mapping(
            ps.map_values(|p: (YamlValue, YamlValue)| (p.0, walk_service(p.1, fv, fe))),
        ),
        _ => s,
    }
}

/// A config with the environment of every service walked: the config is
/// looked at under its tags, and must be a mapping with a `services` key.
pub open spec fn walk_config(
    c: YamlValue,
    fv: spec_fn(YamlValue) -> YamlValue,
    fe: spec_fn(YamlValue) -> YamlValue,
) -> YamlValue
    decreases c,
{
    match c {
        YamlValue::Tagged(t, b) => YamlValue::Tagged(t, Box::new(walk_config(*b, fv, fe))),
        YamlValue::Mapping(ps) => match first_key_index(ps, "services"@) {
            Some(i) => YamlValue::Mapping(
                ps.update(i as int, (ps[i as int].0, walk_services(ps[i as int].1, fv, fe))),
            ),
            None => c,
        },
        _ => c,
    }
}

/// A value of an environment mapping once redacted: null stays null, any
/// other value becomes the marker.
pub open spec fn redact_env_value(v: YamlValue) -> YamlValue {
    if is_null_value(v) {
        v
    } else {
        YamlValue::Str(redacted_marker())
    }
}

/// An entry of an environment list once redacted: a string `KEY=value`
/// (under any tags) becomes `KEY=<redacted>`, split at its first `=`; any
/// other entry stays.
pub open spec fn redact_env_entry(e: YamlValue) -> YamlValue {
    match untag(e) {
        YamlValue::Str(s) => match split_once(s, '=') {
            Some((key, _)) => YamlValue::Str(key + "="@ + redacted_marker()),
            None => e,
        },
        _ => e,
    }
}

/// Redaction of environment values, as a function.
pub open spec fn redact_value_fn() -> spec_fn(YamlValue) -> YamlValue {
    |v: YamlValue| redact_env_value(v)
}

/// Redaction of environment entries, as a function.
pub open spec fn redact_entry_fn() -> spec_fn(YamlValue) -> YamlValue {
    |e: YamlValue| redact_env_entry(e)
}

/// A compose config with the environment of every service redacted.
pub open spec fn redact_config(c: YamlValue) -> YamlValue {
    walk_config(c, redact_value_fn(), redact_entry_fn())
}


fn is_null(v: &Yaml) -> (b: bool)
    ensures
        b == is_null_value(v@),
    decreases v,
{
    match v {
        Yaml::Null => true,
        Yaml::Tagged(_, inner) => is_null(inner),
        _ => false,
    }
}

/// The string under the tags of a node, if it is one (`Value::as_str`).
fn untagged_str(e: &Yaml) -> (r: Option<&String>)
    ensures
        match untag(e@) {
            YamlValue::Str(s) => r matches Some(x) && x@ == s,
            _ => r is None,
        },
    decreases e,
{
    match e {
        Yaml::Str(s) => Some(s),
        Yaml::Tagged(_, inner) => untagged_str(inner),
        _ => None,
    }
}

fn redact_value(v: Yaml) -> (r: Yaml)
    ensures
        r@ == redact_env_value(v@),
{
    if is_null(&v) {
        v
    } else {
        Yaml::Str(String::from_str("<redacted>"))
    }
}

fn redact_entry(e: Yaml) -> (r: Yaml)
    ensures
        r@ == redact_env_entry(e@),
{
    let key: Option<Vec<char>> = match untagged_str(&e) {
        Some(s) => {
            let cs = chars_of(s.as_str());
            match find_char(&cs, '=') {
                Some(k) => {
                    let key = sub_chars(&cs, 0, k);
                    assert(key@ =~= s@.take(k as int));
                    assert(split_once(s@, '=') == Some((key@, s@.skip(k + 1))));
                    Some(key)
                },
                None => None,
            }
        },
        None => None,
    };
    match key {
        Some(key) => {
            let mut out = string_of(&key);
            out.append("=");
            out.append("<redacted>");
            Yaml::Str(out)
        },
        None => e,
    }
}

fn redact_environment(env: Yaml) -> (r: Yaml)
    ensures
        r@ == walk_environment(env@, redact_value_fn(), redact_entry_fn()),
{
    match env {
        Yaml::Mapping(ps) => {
            let ghost old_ps = ps@;
            let mut out: Vec<(Yaml, Yaml)> = Vec::new();
            for p in it: ps.into_iter()
                invariant
                    it.seq() == old_ps,
                    out@.len() == it.index(),
                    forall|j: int|
                        0 <= j < it.index() ==> (#[trigger] out@[j]).0 == old_ps[j].0 && yaml_view(
                            out@[j].1,
                        ) == redact_env_value(yaml_view(old_ps[j].1)),
            {
                let (k, v) = p;
                out.push((k, redact_value(v)));
            }
            proof {
                lemma_yaml_views(seq![], out@);
                lemma_yaml_views(seq![], old_ps);
                assert(yaml_pairs_view(out@) =~= yaml_pairs_view(old_ps).map_values(
                    |p: (YamlValue, YamlValue)| (p.0, redact_value_fn()(p.1)),
                ));
            }
            Yaml::Mapping(out)
        },
        Yaml::Sequence(es) => {
            let ghost old_es = es@;
            let mut out: Vec<Yaml> = Vec::new();
            for e in it: es.into_iter()
                invariant
                    it.seq() == old_es,
                    out@.len() == it.index(),
                    forall|j: int|
                        0 <= j < it.index() ==> yaml_view(#[trigger] out@[j]) == redact_env_entry(
                            yaml_view(old_es[j]),
                        ),
            {
                out.push(redact_entry(e));
            }
            proof {
                lemma_yaml_views(out@, seq![]);
                lemma_yaml_views(old_es, seq![]);
                assert(yaml_seq_view(out@) =~= yaml_seq_view(old_es).map_values(
                    |e: YamlValue| redact_entry_fn()(e),
                ));
            }
            Yaml::Sequence(out)
        },
        _ => env,
    }
}


proof fn lemma_first_key_index(ps: Seq<(YamlValue, YamlValue)>, key: Seq<char>, k: int)
    requires
        0 <= k <= ps.len(),
        forall|j: int| 0 <= j < k ==> ps[j].0 != YamlValue::Str(key),
    ensures
        k < ps.len() && ps[k].0 == YamlValue::Str(key) ==> first_key_index(ps, key) == Some(
            k as nat,
        ),
        k == ps.len() ==> first_key_index(ps, key) is None,
    decreases k,
{
    if k > 0 {
        lemma_first_key_index(ps.drop_first(), key, k - 1);
    }
}

/// Whether a mapping key is the (untagged) string `key`.
fn is_str_key(k: &Yaml, key: &[char]) -> (b: bool)
    ensures
        b == (k@ == YamlValue::Str(key@)),
{
    match k {
        Yaml::Str(s) => {
            let cs = chars_of(s.as_str());
            chars_equal(&cs, key)
        },
        _ => false,
    }
}

/// The position of the entry with the string key `key` (`Mapping::get`).
fn key_position(ps: &Vec<(Yaml, Yaml)>, key: &str) -> (r: Option<usize>)
    ensures
        match first_key_index(yaml_pairs_view(ps@), key@) {
            Some(i) => r == Some(i as usize) && i < ps@.len(),
            None => r is None,
        },
{
    let key_chars = chars_of(key);
    let ghost pv = yaml_pairs_view(ps@);
    proof {
        lemma_yaml_views(seq![], ps@);
    }
    let mut i: usize = 0;
    while i < ps.len()
        invariant
            i <= ps@.len(),
            pv == yaml_pairs_view(ps@),
            pv.len() == ps@.len(),
            forall|j: int| 0 <= j < ps@.len() ==> #[trigger] pv[j] == (yaml_view(ps@[j].0), yaml_view(ps@[j].1)),
            key_chars@ == key@,
            forall|j: int| 0 <= j < i ==> pv[j].0 != YamlValue::Str(key@),
        decreases ps@.len() - i,
    {
        if is_str_key(&ps[i].0, &key_chars) {
            proof {
                assert(pv[i as int].0 == YamlValue::Str(key@));
                lemma_first_key_index(pv, key@, i as int);
            }
            return Some(i);
        }
        i = i + 1;
    }
    proof {
        lemma_first_key_index(pv, key@, i as int);
    }
    None
}

/// A service with its `environment` redacted.
fn redact_service(s: Yaml) -> (r: Yaml)
    ensures
        r@ == walk_service(s@, redact_value_fn(), redact_entry_fn()),
    decreases s,
{
    match s {
        Yaml::Tagged(t, inner) => Yaml::Tagged(t, Box::new(redact_service(*inner))),
        Yaml::Mapping(ps) => {
            let ghost old_ps = ps@;
            proof {
                lemma_yaml_views(seq![], old_ps);
            }
            match key_position(&ps, "environment") {
                None => Yaml::Mapping(ps),
                Some(at) => {
                    let mut out: Vec<(Yaml, Yaml)> = Vec::new();
                    let mut j: usize = 0;
                    let n = ps.len();
                    for p in it: ps.into_iter()
                        invariant
                            it.seq() == old_ps,
                            old_ps.len() == n,
                            out@.len() == it.index(),
                            j == it.index(),
                            at < old_ps.len(),
                            forall|m: int|
                                0 <= m < it.index() && m != at ==> #[trigger] out@[m] == old_ps[m],
                            at < it.index() ==> out@[at as int].0 == old_ps[at as int].0
                                && yaml_view(out@[at as int].1) == walk_environment(
                                yaml_view(old_ps[at as int].1),
                                redact_value_fn(),
                                redact_entry_fn(),
                            ),
                    {
                        let (k, v) = p;
                        assert(j < n);
                        if j == at {
                            out.push((k, redact_environment(v)));
                        } else {
                            out.push((k, v));
                        }
                        j = j + 1;
                    }
                    proof {
                        lemma_yaml_views(seq![], out@);
                        let pv = yaml_pairs_view(old_ps);
                        assert(yaml_pairs_view(out@) =~= pv.update(
                            at as int,
                            (
                                pv[at as int].0,
                                walk_environment(pv[at as int].1, redact_value_fn(), redact_entry_fn()),
                            ),
                        ));
                    }
                    Yaml::Mapping(out)
                },
            }
        },
        _ => s,
    }
}

/// The `services` node with every service redacted.
fn redact_services(s: Yaml) -> (r: Yaml)
    ensures
        r@ == walk_services(s@, redact_value_fn(), redact_entry_fn()),
    decreases s,
{
    match s {
        Yaml::Tagged(t, inner) => Yaml::Tagged(t, Box::new(redact_services(*inner))),
        Yaml::Mapping(ps) => {
            let ghost old_ps = ps@;
            let mut out: Vec<(Yaml, Yaml)> = Vec::new();
            for p in it: ps.into_iter()
                invariant
                    it.seq() == old_ps,
                    out@.len() == it.index(),
                    forall|j: int|
                        0 <= j < it.index() ==> (#[trigger] out@[j]).0 == old_ps[j].0 && yaml_view(
                            out@[j].1,
                        ) == walk_service(
                            yaml_view(old_ps[j].1),
                            redact_value_fn(),
                            redact_entry_fn(),
                        ),
            {
                let (k, v) = p;
                out.push((k, redact_service(v)));
            }
            proof {
                lemma_yaml_views(seq![], out@);
                lemma_yaml_views(seq![], old_ps);
                assert(yaml_pairs_view(out@) =~= yaml_pairs_view(old_ps).map_values(
                    |p: (YamlValue, YamlValue)|
                        (p.0, walk_service(p.1, redact_value_fn(), redact_entry_fn())),
                ));
            }
            Yaml::Mapping(out)
        },
        _ => s,
    }
}

/// A resolved compose config with the environment of every service
/// redacted: each value of an `environment` mapping that is not null
/// becomes `<redacted>`, and each `KEY=value` entry of an `environment`
/// list becomes `KEY=<redacted>`. Nothing else changes.
pub fn redact_compose_environment(config: Yaml) -> (r: Yaml)
    ensures
        r@ == redact_config(config@),
    decreases config,
{
    match config {
        Yaml::Tagged(t, inner) => Yaml::Tagged(t, Box::new(redact_compose_environment(*inner))),
        Yaml::Mapping(ps) => {
            let ghost old_ps = ps@;
            proof {
                lemma_yaml_views(seq![], old_ps);
            }
            match key_position(&ps, "services") {
                None => Yaml::Mapping(ps),
                Some(at) => {
                    let mut out: Vec<(Yaml, Yaml)> = Vec::new();
                    let mut j: usize = 0;
                    let n = ps.len();
                    for p in it: ps.into_iter()
                        invariant
                            it.seq() == old_ps,
                            old_ps.len() == n,
                            out@.len() == it.index(),
                            j == it.index(),
                            at < old_ps.len(),
                            forall|m: int|
                                0 <= m < it.index() && m != at ==> #[trigger] out@[m] == old_ps[m],
                            at < it.index() ==> out@[at as int].0 == old_ps[at as int].0
                                && yaml_view(out@[at as int].1) == walk_services(
                                yaml_view(old_ps[at as int].1),
                                redact_value_fn(),
                                redact_entry_fn(),
                            ),
                    {
                        let (k, v) = p;
                        assert(j < n);
                        if j == at {
                            out.push((k, redact_services(v)));
                        } else {
                            out.push((k, v));
                        }
                        j = j + 1;
                    }
                    proof {
                        lemma_yaml_views(seq![], out@);
                        let pv = yaml_pairs_view(old_ps);
                        assert(yaml_pairs_view(out@) =~= pv.update(
                            at as int,
                            (
                                pv[at as int].0,
                                walk_services(pv[at as int].1, redact_value_fn(), redact_entry_fn()),
                            ),
                        ));
                    }
                    Yaml::Mapping(out)
                },
            }
        },
        _ => config,
    }
}


proof fn lemma_first_key_index_same_keys(
    ps: Seq<(YamlValue, YamlValue)>,
    qs: Seq<(YamlValue, YamlValue)>,
    key: Seq<char>,
)
    requires
        ps.len() == qs.len(),
        forall|i: int| 0 <= i < ps.len() ==> (#[trigger] ps[i]).0 == qs[i].0,
    ensures
        first_key_index(ps, key) == first_key_index(qs, key),
    decreases ps.len(),
{
    if ps.len() > 0 {
        assert(ps[0].0 == qs[0].0);
        assert forall|i: int| 0 <= i < ps.drop_first().len() implies (
        #[trigger] ps.drop_first()[i]).0 == qs.drop_first()[i].0 by {
            assert(ps[i + 1].0 == qs[i + 1].0);
        }
        lemma_first_key_index_same_keys(ps.drop_first(), qs.drop_first(), key);
    }
}

proof fn lemma_first_key_index_bounds(ps: Seq<(YamlValue, YamlValue)>, key: Seq<char>)
    ensures
        first_key_index(ps, key) matches Some(i) ==> i < ps.len(),
    decreases ps.len(),
{
    if ps.len() > 0 {
        lemma_first_key_index_bounds(ps.drop_first(), key);
    }
}

/// The composition of two functions on nodes.
pub open spec fn followed_by(f: spec_fn(YamlValue) -> YamlValue, g: spec_fn(YamlValue) -> YamlValue) -> spec_fn(
    YamlValue,
) -> YamlValue {
    |v: YamlValue| g(f(v))
}

proof fn lemma_walk_environment_compose(
    env: YamlValue,
    f1: spec_fn(YamlValue) -> YamlValue,
    g1: spec_fn(YamlValue) -> YamlValue,
    f2: spec_fn(YamlValue) -> YamlValue,
    g2: spec_fn(YamlValue) -> YamlValue,
)
    ensures
        walk_environment(walk_environment(env, f1, g1), f2, g2) == walk_environment(
            env,
            followed_by(f1, f2),
            followed_by(g1, g2),
        ),
{
    match env {
        YamlValue::Mapping(ps) => {
            assert(ps.map_values(|p: (YamlValue, YamlValue)| (p.0, f1(p.1))).map_values(
                |p: (YamlValue, YamlValue)| (p.0, f2(p.1)),
            ) =~= ps.map_values(|p: (YamlValue, YamlValue)| (p.0, followed_by(f1, f2)(p.1))));
        },
        YamlValue::Sequence(es) => {
            assert(es.map_values(|e: YamlValue| g1(e)).map_values(|e: YamlValue| g2(e))
                =~= es.map_values(|e: YamlValue| followed_by(g1, g2)(e)));
        },
        _ => {},
    }
}

proof fn lemma_walk_service_compose(
    s: YamlValue,
    f1: spec_fn(YamlValue) -> YamlValue,
    g1: spec_fn(YamlValue) -> YamlValue,
    f2: spec_fn(YamlValue) -> YamlValue,
    g2: spec_fn(YamlValue) -> YamlValue,
)
    ensures
        walk_service(walk_service(s, f1, g1), f2, g2) == walk_service(
            s,
            followed_by(f1, f2),
            followed_by(g1, g2),
        ),
    decreases s,
{
    match s {
        YamlValue::Tagged(t, b) => {
            lemma_walk_service_compose(*b, f1, g1, f2, g2);
        },
        YamlValue::Mapping(ps) => {
            lemma_first_key_index_bounds(ps, "environment"@);
            match first_key_index(ps, "environment"@) {
                Some(i) => {
                    let i = i as int;
                    let ps1 = ps.update(i, (ps[i].0, walk_environment(ps[i].1, f1, g1)));
                    lemma_first_key_index_same_keys(ps, ps1, "environment"@);
                    lemma_walk_environment_compose(ps[i].1, f1, g1, f2, g2);
                    assert(ps1.update(i, (ps1[i].0, walk_environment(ps1[i].1, f2, g2)))
                        =~= ps.update(
                        i,
                        (ps[i].0, walk_environment(ps[i].1, followed_by(f1, f2), followed_by(g1, g2))),
                    ));
                },
                None => {},
            }
        },
        _ => {},
    }
}

proof fn lemma_walk_services_compose(
    s: YamlValue,
    f1: spec_fn(YamlValue) -> YamlValue,
    g1: spec_fn(YamlValue) -> YamlValue,
    f2: spec_fn(YamlValue) -> YamlValue,
    g2: spec_fn(YamlValue) -> YamlValue,
)
    ensures
        walk_services(walk_services(s, f1, g1), f2, g2) == walk_services(
            s,
            followed_by(f1, f2),
            followed_by(g1, g2),
        ),
    decreases s,
{
    match s {
        YamlValue::Tagged(t, b) => {
            lemma_walk_services_compose(*b, f1, g1, f2, g2);
        },
        YamlValue::Mapping(ps) => {
            let once = ps.map_values(|p: (YamlValue, YamlValue)| (p.0, walk_service(p.1, f1, g1)));
            let twice = once.map_values(
                |p: (YamlValue, YamlValue)| (p.0, walk_service(p.1, f2, g2)),
            );
            let direct = ps.map_values(
                |p: (YamlValue, YamlValue)| (p.0, walk_service(p.1, followed_by(f1, f2), followed_by(g1, g2))),
            );
            assert forall|i: int| 0 <= i < ps.len() implies #[trigger] twice[i] == direct[i] by {
                lemma_walk_service_compose(ps[i].1, f1, g1, f2, g2);
            }
            assert(twice =~= direct);
        },
        _ => {},
    }
}

/// Walking a config twice is walking it once with the composed functions:
/// a walk changes only environment values and entries, never the keys and
/// tags it follows.
pub proof fn lemma_walk_config_compose(
    c: YamlValue,
    f1: spec_fn(YamlValue) -> YamlValue,
    g1: spec_fn(YamlValue) -> YamlValue,
    f2: spec_fn(YamlValue) -> YamlValue,
    g2: spec_fn(YamlValue) -> YamlValue,
)
    ensures
        walk_config(walk_config(c, f1, g1), f2, g2) == walk_config(c, followed_by(f1, f2), followed_by(g1, g2)),
    decreases c,
{
    match c {
        YamlValue::Tagged(t, b) => {
            lemma_walk_config_compose(*b, f1, g1, f2, g2);
        },
        YamlValue::Mapping(ps) => {
            lemma_first_key_index_bounds(ps, "services"@);
            match first_key_index(ps, "services"@) {
                Some(i) => {
                    let i = i as int;
                    let ps1 = ps.update(i, (ps[i].0, walk_services(ps[i].1, f1, g1)));
                    lemma_first_key_index_same_keys(ps, ps1, "services"@);
                    lemma_walk_services_compose(ps[i].1, f1, g1, f2, g2);
                    assert(ps1.update(i, (ps1[i].0, walk_services(ps1[i].1, f2, g2))) =~= ps.update(
                        i,
                        (ps[i].0, walk_services(ps[i].1, followed_by(f1, f2), followed_by(g1, g2))),
                    ));
                },
                None => {},
            }
        },
        _ => {},
    }
}

proof fn lemma_first_index_prefix_free(s: Seq<char>, c: char)
    ensures
        first_index_of(s, c) matches Some(i) ==> i < s.len() && s[i as int] == c && forall|j: int|
            0 <= j < i ==> s[j] != c,
    decreases s.len(),
{
    if s.len() > 0 {
        lemma_first_index_prefix_free(s.drop_first(), c);
        if let Some(i) = first_index_of(s, c) {
            if i > 0 {
                assert forall|j: int| 0 <= j < i implies s[j] != c by {
                    if j > 0 {
                        assert(s.drop_first()[j - 1] == s[j]);
                    }
                }
            }
        }
    }
}

/// `key=rest` splits at the end of `key` when `key` holds no `=`.
proof fn lemma_split_at_equals(key: Seq<char>, rest: Seq<char>)
    requires
        forall|j: int| 0 <= j < key.len() ==> key[j] != '=',
    ensures
        split_once(key + "="@ + rest, '=') == Some((key, rest)),
{
    reveal_strlit("=");
    let s = key + "="@ + rest;
    assert(s[key.len() as int] == '=');
    assert forall|j: int| 0 <= j < key.len() implies s[j] != '=' by {
        assert(s[j] == key[j]);
    }
    crate::text::lemma_first_index_is(s, '=', key.len() as int);
    assert(s.take(key.len() as int) =~= key);
    assert(s.skip(key.len() as int + 1) =~= rest);
}

proof fn lemma_redacted_entry_splits(e: YamlValue)
    ensures
        match untag(e) {
            YamlValue::Str(s) => match split_once(s, '=') {
                Some((key, _)) => redact_env_entry(e) == YamlValue::Str(
                    key + "="@ + redacted_marker(),
                ) && split_once(key + "="@ + redacted_marker(), '=') == Some(
                    (key, redacted_marker()),
                ),
                None => true,
            },
            _ => true,
        },
{
    if let YamlValue::Str(s) = untag(e) {
        lemma_first_index_prefix_free(s, '=');
        if let Some((key, _)) = split_once(s, '=') {
            let i = first_index_of(s, '=')->0;
            assert forall|j: int| 0 <= j < key.len() implies key[j] != '=' by {
                assert(key[j] == s[j]);
            }
            lemma_split_at_equals(key, redacted_marker());
        }
    }
}

/// Redacting twice is redacting once.
pub proof fn lemma_redact_config_idempotent(c: YamlValue)
    ensures
        redact_config(redact_config(c)) == redact_config(c),
{
    lemma_walk_config_compose(c, redact_value_fn(), redact_entry_fn(), redact_value_fn(), redact_entry_fn());
    assert forall|e: YamlValue| #[trigger] followed_by(redact_entry_fn(), redact_entry_fn())(e)
        == redact_entry_fn()(e) by {
        lemma_redacted_entry_splits(e);
    }
    assert(followed_by(redact_value_fn(), redact_value_fn()) =~= redact_value_fn());
    assert(followed_by(redact_entry_fn(), redact_entry_fn()) =~= redact_entry_fn());
}

/// An environment entry with its value hidden: `KEY=value` becomes `KEY`.
pub open spec fn mask_env_entry(e: YamlValue) -> YamlValue {
    match untag(e) {
        YamlValue::Str(s) => match split_once(s, '=') {
            Some((key, _)) => YamlValue::Str(key),
            None => e,
        },
        _ => e,
    }
}

/// A config with every environment value hidden: mapping values become
/// null and list entries keep their key.
pub open spec fn mask_environment(c: YamlValue) -> YamlValue {
    walk_config(c, |v: YamlValue| YamlValue::Null, |e: YamlValue| mask_env_entry(e))
}

/// Redaction changes environment values and nothing else: once every
/// environment value is hidden, a config and its redaction are the same.
/// The keys of every environment, all other services' settings and every
/// other part of the config are kept.
pub proof fn lemma_redaction_keeps_all_but_values(c: YamlValue)
    ensures
        mask_environment(redact_config(c)) == mask_environment(c),
{
    let mv = |v: YamlValue| YamlValue::Null;
    let me = |e: YamlValue| mask_env_entry(e);
    lemma_walk_config_compose(c, redact_value_fn(), redact_entry_fn(), mv, me);
    assert forall|e: YamlValue| #[trigger] followed_by(redact_entry_fn(), me)(e) == me(e) by {
        lemma_redacted_entry_splits(e);
    }
    assert(followed_by(redact_value_fn(), mv) =~= mv);
    assert(followed_by(redact_entry_fn(), me) =~= me);
}


/// A value of an environment mapping that holds no secret: null or the
/// marker.
pub open spec fn env_value_is_redacted(v: YamlValue) -> bool {
    is_null_value(v) || v == YamlValue::Str(redacted_marker())
}

/// An entry of an environment list that holds no secret: if it is a
/// `KEY=value` string, its value is the marker.
pub open spec fn env_entry_is_redacted(e: YamlValue) -> bool {
    match untag(e) {
        YamlValue::Str(s) => match split_once(s, '=') {
            Some((_, value)) => value == redacted_marker(),
            None => true,
        },
        _ => true,
    }
}

/// An environment that holds no secret.
pub open spec fn environment_is_redacted(env: YamlValue) -> bool {
    match env {
        YamlValue::Mapping(ps) => forall|i: int|
            0 <= i < ps.len() ==> env_value_is_redacted(#[trigger] ps[i].1),
        YamlValue::Sequence(es) => forall|i: int|
            0 <= i < es.len() ==> env_entry_is_redacted(#[trigger] es[i]),
        _ => true,
    }
}

/// `pred` holds of the `environment` of a service, found as redaction finds
/// it.
pub open spec fn service_environment_holds(s: YamlValue, pred: spec_fn(YamlValue) -> bool) -> bool
    decreases s,
{
    match s {
        YamlValue::Tagged(_, b) => service_environment_holds(*b, pred),
        YamlValue::Mapping(ps) => match first_key_index(ps, "environment"@) {
            Some(i) => pred(ps[i as int].1),
            None => true,
        },
        _ => true,
    }
}

/// `pred` holds of the environment of every service of a `services` node.
pub open spec fn services_environments_hold(s: YamlValue, pred: spec_fn(YamlValue) -> bool) -> bool
    decreases s,
{
    match s {
        YamlValue::Tagged(_, b) => services_environments_hold(*b, pred),
        YamlValue::Mapping(ps) => forall|i: int|
            0 <= i < ps.len() ==> service_environment_holds(#[trigger] ps[i].1, pred),
        _ => true,
    }
}

/// `pred` holds of the environment of every service of a config, found as
/// redaction finds them.
pub open spec fn config_environments_hold(c: YamlValue, pred: spec_fn(YamlValue) -> bool) -> bool
    decreases c,
{
    match c {
        YamlValue::Tagged(_, b) => config_environments_hold(*b, pred),
        YamlValue::Mapping(ps) => match first_key_index(ps, "services"@) {
            Some(i) => services_environments_hold(ps[i as int].1, pred),
            None => true,
        },
        _ => true,
    }
}

proof fn lemma_redacted_environment(env: YamlValue)
    ensures
        environment_is_redacted(walk_environment(env, redact_value_fn(), redact_entry_fn())),
{
    match env {
        YamlValue::Sequence(es) => {
            let out = es.map_values(|e: YamlValue| redact_entry_fn()(e));
            assert forall|i: int| 0 <= i < out.len() implies env_entry_is_redacted(
                #[trigger] out[i],
            ) by {
                lemma_redacted_entry_splits(es[i]);
            }
        },
        _ => {},
    }
}

proof fn lemma_redacted_service(s: YamlValue)
    ensures
        service_environment_holds(
            walk_service(s, redact_value_fn(), redact_entry_fn()),
            |env: YamlValue| environment_is_redacted(env),
        ),
    decreases s,
{
    match s {
        YamlValue::Tagged(_, b) => lemma_redacted_service(*b),
        YamlValue::Mapping(ps) => {
            lemma_first_key_index_bounds(ps, "environment"@);
            if let Some(i) = first_key_index(ps, "environment"@) {
                let i = i as int;
                let ps1 = ps.update(
                    i,
                    (ps[i].0, walk_environment(ps[i].1, redact_value_fn(), redact_entry_fn())),
                );
                lemma_first_key_index_same_keys(ps, ps1, "environment"@);
                lemma_redacted_environment(ps[i].1);
            }
        },
        _ => {},
    }
}

proof fn lemma_redacted_services(s: YamlValue)
    ensures
        services_environments_hold(
            walk_services(s, redact_value_fn(), redact_entry_fn()),
            |env: YamlValue| environment_is_redacted(env),
        ),
    decreases s,
{
    match s {
        YamlValue::Tagged(_, b) => lemma_redacted_services(*b),
        YamlValue::Mapping(ps) => {
            let out = ps.map_values(
                |p: (YamlValue, YamlValue)|
                    (p.0, walk_service(p.1, redact_value_fn(), redact_entry_fn())),
            );
            assert forall|i: int| 0 <= i < out.len() implies service_environment_holds(
                #[trigger] out[i].1,
                |env: YamlValue| environment_is_redacted(env),
            ) by {
                lemma_redacted_service(ps[i].1);
            }
        },
        _ => {},
    }
}

/// No secret survives redaction: in the redacted config, every value of the
/// `environment` mapping of every service is null or `<redacted>`, and
/// every `KEY=value` entry of an `environment` list has `<redacted>` for
/// its value.
pub proof fn lemma_no_environment_value_survives(c: YamlValue)
    ensures
        config_environments_hold(
            redact_config(c),
            |env: YamlValue| environment_is_redacted(env),
        ),
    decreases c,
{
    match c {
        YamlValue::Tagged(_, b) => lemma_no_environment_value_survives(*b),
        YamlValue::Mapping(ps) => {
            lemma_first_key_index_bounds(ps, "services"@);
            if let Some(i) = first_key_index(ps, "services"@) {
                let i = i as int;
                let ps1 = ps.update(
                    i,
                    (ps[i].0, walk_services(ps[i].1, redact_value_fn(), redact_entry_fn())),
                );
                lemma_first_key_index_same_keys(ps, ps1, "services"@);
                lemma_redacted_services(ps[i].1);
            }
        },
        _ => {},
    }
}


/// `str::replace`: `s` with every occurrence of `from` replaced by `to`,
/// the occurrences taken from the left without overlap; an empty `from`
/// occurs before every character and at the end.
pub open spec fn replace_all(s: Seq<char>, from: Seq<char>, to: Seq<char>) -> Seq<char>
    decreases s.len(),
{
    if from.len() == 0 {
        if s.len() == 0 {
            to
        } else {
            to + seq![s[0]] + replace_all(s.drop_first(), from, to)
        }
    } else if s.len() < from.len() {
        s
    } else if s.take(from.len() as int) == from {
        to + replace_all(s.skip(from.len() as int), from, to)
    } else {
        seq![s[0]] + replace_all(s.drop_first(), from, to)
    }
}

/// `svi::replace_in_string`: for each replacer `(secret, name)` in turn,
/// every occurrence of `secret` is replaced by `<name>`.
pub open spec fn replace_secrets(s: Seq<char>, replacers: Seq<(Seq<char>, Seq<char>)>) -> Seq<char>
    decreases replacers.len(),
{
    if replacers.len() == 0 {
        s
    } else {
        replace_secrets(
            replace_all(s, replacers[0].0, "<"@ + replacers[0].1 + ">"@),
            replacers.drop_first(),
        )
    }
}

/// The model of a list of replacers.
pub open spec fn replacer_views(replacers: Seq<(String, String)>) -> Seq<(Seq<char>, Seq<char>)> {
    replacers.map_values(|p: (String, String)| (p.0@, p.1@))
}

/// Calls `svi::replace_in_string`. Its source clones the input, then for
/// each `(to_replace, replacer)` in order sets the result to
/// `result.replace(to_replace, &format!("<{replacer}>"))`: this is
/// `replace_secrets`.
#[verifier::external_body]
fn svi_replace_in_string(input: &str, replacers: &[(String, String)]) -> (r: String)
    ensures
        r@ == replace_secrets(input@, replacer_views(replacers@)),
{
    svi::replace_in_string(input, replacers)
}

/// What stands in for a config that cannot be parsed: a config that
/// cannot be redacted is withheld.
pub open spec fn withheld_unparseable() -> Seq<char> {
    "<compose config withheld: output could not be parsed for redaction>"@
}

/// What stands in for a redacted config that cannot be written back.
pub open spec fn withheld_unserializable() -> Seq<char> {
    "<compose config withheld: redacted output could not be serialized>"@
}

/// The text given for a compose config that could not be parsed. It holds
/// nothing of the config.
pub fn compose_config_withheld() -> (r: String)
    ensures
        r@ == withheld_unparseable(),
{
    String::from_str("<compose config withheld: output could not be parsed for redaction>")
}

/// The text of a redacted config, safe to log or store: the serialized
/// redacted config (or, when it could not be serialized, a fixed text that
/// says so) with every known secret of `replacers` replaced by its name.
pub fn finish_redaction(serialized: Option<String>, replacers: &[(String, String)]) -> (r: String)
    ensures
        r@ == replace_secrets(
            match serialized {
                Some(s) => s@,
                None => withheld_unserializable(),
            },
            replacer_views(replacers@),
        ),
{
    let text = match serialized {
        Some(s) => s,
        None => String::from_str(
            "<compose config withheld: redacted output could not be serialized>",
        ),
    };
    svi_replace_in_string(text.as_str(), replacers)
}

} // verus!
