//! A YAML document as the redaction of compose configs sees it, and its
//! mathematical model.

use vstd::prelude::*;

verus! {

/// A YAML node: the variants of `serde_yaml_ng::Value`, with a number kept
/// as its text and a tag as its text. Mappings keep their entries in order.
#[derive(Debug)]
pub enum Yaml {
    Null,
    Bool(bool),
    Number(String),
    Str(String),
    Sequence(Vec<Yaml>),
    Mapping(Vec<(Yaml, Yaml)>),
    Tagged(String, Box<Yaml>),
}

/// The model of a YAML node.
pub enum YamlValue {
    Null,
    Bool(bool),
    Number(Seq<char>),
    Str(Seq<char>),
    Sequence(Seq<YamlValue>),
    Mapping(Seq<(YamlValue, YamlValue)>),
    Tagged(Seq<char>, Box<YamlValue>),
}

/// The model of a node.
pub open spec fn yaml_view(y: Yaml) -> YamlValue
    decreases y, 0nat,
{
    match y {
        Yaml::Null => YamlValue::Null,
        Yaml::Bool(b) => YamlValue::Bool(b),
        Yaml::Number(n) => YamlValue::Number(n@),
        Yaml::Str(s) => YamlValue::Str(s@),
        Yaml::Sequence(v) => YamlValue::Sequence(yaml_seq_view(v@)),
        Yaml::Mapping(v) => YamlValue::Mapping(yaml_pairs_view(v@)),
        Yaml::Tagged(t, b) => YamlValue::Tagged(t@, Box::new(yaml_view(*b))),
    }
}

/// The models of a sequence of nodes.
pub open spec fn yaml_seq_view(s: Seq<Yaml>) -> Seq<YamlValue>
    decreases s, 1nat,
{
    if s.len() == 0 {
        seq![]
    } else {
        seq![yaml_view(s[0])] + yaml_seq_view(s.drop_first())
    }
}

/// The models of a sequence of mapping entries.
pub open spec fn yaml_pairs_view(s: Seq<(Yaml, Yaml)>) -> Seq<(YamlValue, YamlValue)>
    decreases s, 1nat,
{
    if s.len() == 0 {
        seq![]
    } else {
        seq![(yaml_view(s[0].0), yaml_view(s[0].1))] + yaml_pairs_view(s.drop_first())
    }
}

impl View for Yaml {
    type V = YamlValue;

    open spec fn view(&self) -> YamlValue {
        yaml_view(*self)
    }
}


proof fn lemma_seq_view(s: Seq<Yaml>)
    ensures
        yaml_seq_view(s).len() == s.len(),
        forall|i: int| 0 <= i < s.len() ==> yaml_seq_view(s)[i] == yaml_view(#[trigger] s[i]),
    decreases s.len(),
{
    if s.len() > 0 {
        lemma_seq_view(s.drop_first());
        assert forall|i: int| 0 <= i < s.len() implies yaml_seq_view(s)[i] == yaml_view(
            #[trigger] s[i],
        ) by {
            if i > 0 {
                assert(s.drop_first()[i - 1] == s[i]);
            }
        }
    }
}

proof fn lemma_pairs_view(s: Seq<(Yaml, Yaml)>)
    ensures
        yaml_pairs_view(s).len() == s.len(),
        forall|i: int|
            0 <= i < s.len() ==> yaml_pairs_view(s)[i] == (
                yaml_view(#[trigger] s[i].0),
                yaml_view(s[i].1),
            ),
    decreases s.len(),
{
    if s.len() > 0 {
        lemma_pairs_view(s.drop_first());
        assert forall|i: int| 0 <= i < s.len() implies yaml_pairs_view(s)[i] == (
            yaml_view(#[trigger] s[i].0),
            yaml_view(s[i].1),
        ) by {
            if i > 0 {
                assert(s.drop_first()[i - 1] == s[i]);
            }
        }
    }
}

/// The models of nodes, one by one.
pub proof fn lemma_yaml_views(s: Seq<Yaml>, p: Seq<(Yaml, Yaml)>)
    ensures
        yaml_seq_view(s) == s.map_values(|y: Yaml| yaml_view(y)),
        yaml_pairs_view(p) == p.map_values(|e: (Yaml, Yaml)| (yaml_view(e.0), yaml_view(e.1))),
{
    lemma_seq_view(s);
    lemma_pairs_view(p);
    assert(yaml_seq_view(s) =~= s.map_values(|y: Yaml| yaml_view(y)));
    assert(yaml_pairs_view(p) =~= p.map_values(
        |e: (Yaml, Yaml)| (yaml_view(e.0), yaml_view(e.1)),
    ));
}

} // verus!
