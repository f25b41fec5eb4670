//! The requirement catalogue's tree: a project holds topics, each topic
//! holds requirements and nested subtopics. Ordered mappings are lists of
//! key/value pairs, so iteration order is insertion order; the structure is
//! a strict ownership tree and is read-only once built.

use vstd::prelude::*;

use crate::version::Version;

verus! {

/// A single requirement: a name, a description (trimmed on render) and
/// free-text notes.
#[derive(Debug)]
pub struct Requirement {
    pub name: String,
    pub description: String,
    pub additional_info: Vec<String>,
}

/// A topic: a name, an ordered mapping of requirement identifiers to
/// requirements, and an ordered mapping of subtopic identifiers to topics.
#[derive(Debug)]
pub struct Topic {
    pub name: String,
    pub requirements: Vec<(String, Requirement)>,
    pub subtopics: Vec<(String, Topic)>,
}

/// A terminology definition: a name, a value and free-text notes.
#[derive(Debug)]
pub struct Definition {
    pub name: String,
    pub value: String,
    pub additional_info: Vec<String>,
}

/// A configuration default: a name, a type tag, and optional valid values,
/// unit, default value and hint. A missing default value means the
/// parameter must be supplied at runtime.
#[derive(Debug)]
pub struct ConfigDefault {
    pub name: String,
    pub typ: String,
    pub valid_values: Option<Vec<String>>,
    pub unit: Option<String>,
    pub default_value: Option<String>,
    pub hint: Option<String>,
}

/// The root of the catalogue.
#[derive(Debug)]
pub struct Project {
    pub name: String,
    pub version: Version,
    pub description: String,
    pub topics: Vec<(String, Topic)>,
    pub definitions: Vec<Definition>,
    pub config_defaults: Vec<ConfigDefault>,
}

/// Keys are unique within one ordered mapping.
pub open spec fn unique_keys<T>(m: Seq<(String, T)>) -> bool {
    forall|i: int, j: int| 0 <= i < j < m.len() ==> m[i].0@ != m[j].0@
}

/// A topic is well-formed when its requirement and subtopic keys are each
/// unique within the topic and every subtopic is well-formed in turn.
pub open spec fn topic_wf(t: Topic) -> bool
    decreases t,
{
    &&& unique_keys(t.requirements@)
    &&& unique_keys(t.subtopics@)
    &&& forall|i: int|
        0 <= i < t.subtopics@.len() ==> topic_wf(#[trigger] t.subtopics@[i].1)
}

/// A project is well-formed when its topic keys are unique and every topic
/// is well-formed.
pub open spec fn project_wf(p: Project) -> bool {
    &&& unique_keys(p.topics@)
    &&& forall|i: int| 0 <= i < p.topics@.len() ==> topic_wf(#[trigger] p.topics@[i].1)
}

/// The nesting depth of a topic list: zero for an empty list, and one more
/// than the deepest subtopic list below any topic.
pub open spec fn topics_height(ts: Seq<(String, Topic)>) -> nat
    decreases ts,
{
    if ts.len() == 0 {
        0
    } else {
        let h0 = 1 + topics_height(ts[0].1.subtopics@);
        let h1 = topics_height(ts.drop_first());
        if h0 > h1 {
            h0
        } else {
            h1
        }
    }
}

/// Every topic of the list sits strictly below the list's height.
pub proof fn lemma_topics_height_at(ts: Seq<(String, Topic)>, i: int)
    requires
        0 <= i < ts.len(),
    ensures
        1 + topics_height(ts[i].1.subtopics@) <= topics_height(ts),
    decreases ts.len(),
{
    if i == 0 {
    } else {
        lemma_topics_height_at(ts.drop_first(), i - 1);
        assert(ts.drop_first()[i - 1] == ts[i]);
    }
}

} // verus!
