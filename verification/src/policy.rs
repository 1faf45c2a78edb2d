//! Reading policies from YAML: required and optional fields, effect maps with
//! nested `group.key` entries, and completing a partial policy from a template.
//!
//! Numbers are carried as the YAML nodes that hold them (nodes for which
//! `yaml_is_number` holds); their numeric value is not read here.

use vstd::prelude::*;
use crate::text::joined;
use crate::text_map::TextMap;
use crate::yaml::{
    copy_node, entries_of, error_message, field, is_number, parse_document, text_of,
    yaml_document, yaml_entries, yaml_error_text, yaml_field, yaml_is_number, yaml_text,
};

verus! {

/// A policy: its name, the community it applies to, its effects by key and
/// the rate at which it is adopted.
#[derive(Debug)]
pub struct Policy {
    pub id: u32,
    pub name: String,
    pub community: String,
    pub effects: TextMap<serde_yaml::Value>,
    pub adoption_rate: serde_yaml::Value,
}

/// A policy whose fields may be missing, to be completed from a template.
#[derive(Debug)]
pub struct PartialPolicy {
    pub name: Option<String>,
    pub community: Option<String>,
    pub effects: Option<TextMap<serde_yaml::Value>>,
    pub adoption_rate: Option<serde_yaml::Value>,
}

/// Why a policy could not be read.
#[derive(Debug)]
pub enum PolicyError {
    YamlError(serde_yaml::Error),
    MissingField(String),
    InvalidValue(String),
}

/// The meaning of a `Policy`.
pub struct PolicyModel {
    pub id: u32,
    pub name: Seq<char>,
    pub community: Seq<char>,
    pub effects: Map<Seq<char>, serde_yaml::Value>,
    pub adoption_rate: serde_yaml::Value,
}

/// The meaning of a `PolicyError`.
pub enum PolicyFault {
    Yaml(serde_yaml::Error),
    MissingField(Seq<char>),
    InvalidValue(Seq<char>),
}

/// The meaning of a `PartialPolicy`.
pub struct PartialModel {
    pub name: Option<Seq<char>>,
    pub community: Option<Seq<char>>,
    pub effects: Option<Map<Seq<char>, serde_yaml::Value>>,
    pub adoption_rate: Option<serde_yaml::Value>,
}

impl Policy {
    pub open spec fn model(&self) -> PolicyModel {
        PolicyModel {
            id: self.id,
            name: self.name@,
            community: self.community@,
            effects: self.effects.spec_map(),
            adoption_rate: self.adoption_rate,
        }
    }
}

impl PartialPolicy {
    pub open spec fn model(&self) -> PartialModel {
        PartialModel {
            name: match self.name {
                Some(n) => Some(n@),
                None => None,
            },
            community: match self.community {
                Some(c) => Some(c@),
                None => None,
            },
            effects: match self.effects {
                Some(e) => Some(e.spec_map()),
                None => None,
            },
            adoption_rate: self.adoption_rate,
        }
    }
}

impl PolicyError {
    pub open spec fn fault(&self) -> PolicyFault {
        match self {
            PolicyError::YamlError(e) => PolicyFault::Yaml(*e),
            PolicyError::MissingField(f) => PolicyFault::MissingField(f@),
            PolicyError::InvalidValue(f) => PolicyFault::InvalidValue(f@),
        }
    }

    /// The text that the error displays.
    pub fn message(&self) -> (r: String)
        ensures
            r@ == fault_text(self.fault()),
    {
        match self {
            PolicyError::YamlError(e) => {
                let detail = error_message(e);
                joined("YAML parsing error: ", detail.as_str())
            },
            PolicyError::MissingField(f) => joined("Missing required field: ", f.as_str()),
            PolicyError::InvalidValue(f) => joined("Invalid value for field: ", f.as_str()),
        }
    }
}

/// The text displayed for each kind of failure.
pub open spec fn fault_text(f: PolicyFault) -> Seq<char> {
    match f {
        PolicyFault::Yaml(e) => "YAML parsing error: "@ + yaml_error_text(e),
        PolicyFault::MissingField(name) => "Missing required field: "@ + name,
        PolicyFault::InvalidValue(what) => "Invalid value for field: "@ + what,
    }
}

/// The meaning of the outcome of reading a policy.
pub open spec fn policy_outcome(r: Result<Policy, PolicyError>) -> Result<PolicyModel, PolicyFault> {
    match r {
        Ok(p) => Ok(p.model()),
        Err(e) => Err(e.fault()),
    }
}

/// The text under `field` in `doc`: missing, not a string, or its text.
pub open spec fn string_field(doc: serde_yaml::Value, field: Seq<char>) -> Result<
    Seq<char>,
    PolicyFault,
> {
    match yaml_field(doc, field) {
        None => Err(PolicyFault::MissingField(field)),
        Some(v) => match yaml_text(v) {
            Some(t) => Ok(t),
            None => Err(PolicyFault::InvalidValue(field + " must be a string"@)),
        },
    }
}

/// Adds the entries of a nested mapping under `prefix`: each entry with a text
/// key and a number value is stored under `prefix.key`; the others are skipped.
pub open spec fn absorb_nested(
    m: Map<Seq<char>, serde_yaml::Value>,
    prefix: Seq<char>,
    nested: Seq<(serde_yaml::Value, serde_yaml::Value)>,
) -> Map<Seq<char>, serde_yaml::Value>
    decreases nested.len(),
{
    if nested.len() == 0 {
        m
    } else {
        let before = absorb_nested(m, prefix, nested.drop_last());
        let (k, v) = nested.last();
        match yaml_text(k) {
            Some(t) => if yaml_is_number(v) {
                before.insert(prefix + "."@ + t, v)
            } else {
                before
            },
            None => before,
        }
    }
}

/// Adds one effect: a number is stored under `key`, a mapping contributes its
/// number entries under `key.`, anything else is skipped.
pub open spec fn absorb_effect(
    m: Map<Seq<char>, serde_yaml::Value>,
    key: Seq<char>,
    v: serde_yaml::Value,
) -> Map<Seq<char>, serde_yaml::Value> {
    if yaml_is_number(v) {
        m.insert(key, v)
    } else {
        match yaml_entries(v) {
            Some(nested) => absorb_nested(m, key, nested),
            None => m,
        }
    }
}

/// The effects that the entries of an `effects` mapping describe, read in
/// document order; entries whose key is not text are skipped.
pub open spec fn effects_of_entries(entries: Seq<(serde_yaml::Value, serde_yaml::Value)>) -> Map<
    Seq<char>,
    serde_yaml::Value,
>
    decreases entries.len(),
{
    if entries.len() == 0 {
        Map::empty()
    } else {
        let before = effects_of_entries(entries.drop_last());
        let (k, v) = entries.last();
        match yaml_text(k) {
            Some(t) => absorb_effect(before, t, v),
            None => before,
        }
    }
}

/// The policy that a YAML document describes, or the first field that is
/// missing or malformed, in the order name, community, effects, adoption rate.
pub open spec fn read_policy(doc: serde_yaml::Value) -> Result<PolicyModel, PolicyFault> {
    match string_field(doc, "name"@) {
        Err(f) => Err(f),
        Ok(name) => match string_field(doc, "community"@) {
            Err(f) => Err(f),
            Ok(community) => match yaml_field(doc, "effects"@) {
                None => Err(PolicyFault::MissingField("effects"@)),
                Some(ev) => match yaml_entries(ev) {
                    None => Err(PolicyFault::InvalidValue("effects must be a mapping"@)),
                    Some(es) => match yaml_field(doc, "adoption_rate"@) {
                        None => Err(PolicyFault::MissingField("adoption_rate"@)),
                        Some(a) => if yaml_is_number(a) {
                            Ok(
                                PolicyModel {
                                    id: 0,
                                    name,
                                    community,
                                    effects: effects_of_entries(es),
                                    adoption_rate: a,
                                },
                            )
                        } else {
                            Err(PolicyFault::InvalidValue("adoption_rate must be a number"@))
                        },
                    },
                },
            },
        },
    }
}

/// The policy read from YAML text.
pub open spec fn parsed_policy(text: Seq<char>) -> Result<PolicyModel, PolicyFault> {
    match yaml_document(text) {
        Err(e) => Err(PolicyFault::Yaml(e)),
        Ok(doc) => read_policy(doc),
    }
}

/// The text stored under `field`, or the error that says why there is none.
fn extract_string_field(value: &serde_yaml::Value, field_name: &str) -> (r: Result<
    String,
    PolicyError,
>)
    ensures
        match (r, string_field(*value, field_name@)) {
            (Ok(t), Ok(u)) => t@ == u,
            (Err(e), Err(f)) => e.fault() == f,
            _ => false,
        },
{
    match field(value, field_name) {
        None => Err(PolicyError::MissingField(field_name.to_owned())),
        Some(v) => match text_of(&v) {
            Some(t) => Ok(t),
            None => Err(PolicyError::InvalidValue(joined(field_name, " must be a string"))),
        },
    }
}

/// Adds the number entries of a nested mapping under `prefix.`.
fn process_nested_mapping(
    effects_map: &mut TextMap<serde_yaml::Value>,
    prefix: &str,
    mapping: &Vec<(serde_yaml::Value, serde_yaml::Value)>,
)
    ensures
        final(effects_map).spec_map() == absorb_nested(old(effects_map).spec_map(), prefix@, mapping@),
{
    let ghost start = effects_map.spec_map();
    let mut i: usize = 0;
    while i < mapping.len()
        invariant
            i <= mapping.len(),
            effects_map.spec_map() == absorb_nested(start, prefix@, mapping@.subrange(0, i as int)),
        decreases mapping.len() - i,
    {
        proof {
            assert(mapping@.subrange(0, i + 1).drop_last() =~= mapping@.subrange(0, i as int));
            assert(mapping@.subrange(0, i + 1).last() == mapping@[i as int]);
        }
        let k = &mapping[i].0;
        let v = &mapping[i].1;
        match text_of(k) {
            Some(t) => {
                if is_number(v) {
                    let dotted = joined(prefix, ".");
                    let key = joined(dotted.as_str(), t.as_str());
                    effects_map.insert(key, copy_node(v));
                }
            },
            None => {},
        }
        i = i + 1;
    }
    proof {
        assert(mapping@.subrange(0, mapping@.len() as int) =~= mapping@);
    }
}

/// Adds one effect entry to `effects_map` as `absorb_effect` describes.
fn absorb_effect_into(
    effects_map: &mut TextMap<serde_yaml::Value>,
    key: &str,
    value: &serde_yaml::Value,
)
    ensures
        final(effects_map).spec_map() == absorb_effect(old(effects_map).spec_map(), key@, *value),
{
    if is_number(value) {
        effects_map.insert(key.to_owned(), copy_node(value));
    } else {
        match entries_of(value) {
            Some(nested) => process_nested_mapping(effects_map, key, &nested),
            None => {},
        }
    }
}

/// The effects described by an `effects` node, which must be a mapping.
fn extract_effects_map(effects_value: &serde_yaml::Value) -> (r: Result<
    TextMap<serde_yaml::Value>,
    PolicyError,
>)
    ensures
        match yaml_entries(*effects_value) {
            Some(es) => r matches Ok(m) && m.spec_map() == effects_of_entries(es),
            None => r matches Err(e) && e.fault() == PolicyFault::InvalidValue(
                "effects must be a mapping"@,
            ),
        },
{
    match entries_of(effects_value) {
        None => Err(PolicyError::InvalidValue("effects must be a mapping".to_owned())),
        Some(entries) => {
            let mut effects_map: TextMap<serde_yaml::Value> = TextMap::new();
            let mut i: usize = 0;
            while i < entries.len()
                invariant
                    i <= entries.len(),
                    effects_map.spec_map() == effects_of_entries(entries@.subrange(0, i as int)),
                decreases entries.len() - i,
            {
                proof {
                    assert(entries@.subrange(0, i + 1).drop_last() =~= entries@.subrange(
                        0,
                        i as int,
                    ));
                    assert(entries@.subrange(0, i + 1).last() == entries@[i as int]);
                }
                let k = &entries[i].0;
                let v = &entries[i].1;
                match text_of(k) {
                    Some(t) => absorb_effect_into(&mut effects_map, t.as_str(), v),
                    None => {},
                }
                i = i + 1;
            }
            proof {
                assert(entries@.subrange(0, entries@.len() as int) =~= entries@);
            }
            Ok(effects_map)
        },
    }
}

/// The policy that a YAML document describes.
pub fn policy_from_document(value: &serde_yaml::Value) -> (r: Result<Policy, PolicyError>)
    ensures
        policy_outcome(r) == read_policy(*value),
{
    let name = match extract_string_field(value, "name") {
        Ok(n) => n,
        Err(e) => return Err(e),
    };
    let community = match extract_string_field(value, "community") {
        Ok(c) => c,
        Err(e) => return Err(e),
    };
    let effects_value = match field(value, "effects") {
        Some(ev) => ev,
        None => return Err(PolicyError::MissingField("effects".to_owned())),
    };
    let effects = match extract_effects_map(&effects_value) {
        Ok(m) => m,
        Err(e) => return Err(e),
    };
    let adoption_rate = match field(value, "adoption_rate") {
        Some(a) => a,
        None => return Err(PolicyError::MissingField("adoption_rate".to_owned())),
    };
    if !is_number(&adoption_rate) {
        return Err(PolicyError::InvalidValue("adoption_rate must be a number".to_owned()));
    }
    Ok(Policy { id: 0, name, community, effects, adoption_rate })
}

/// Reads a policy from YAML text.
pub fn parse_policy(yaml: &str) -> (r: Result<Policy, PolicyError>)
    ensures
        policy_outcome(r) == parsed_policy(yaml@),
{
    match parse_document(yaml) {
        Err(e) => Err(PolicyError::YamlError(e)),
        Ok(value) => policy_from_document(&value),
    }
}

/// Reads a template policy; a template is read exactly as a policy.
pub fn parse_policy_template(yaml: &str) -> (r: Result<Policy, PolicyError>)
    ensures
        policy_outcome(r) == parsed_policy(yaml@),
{
    parse_policy(yaml)
}

/// The entries of a mapping keyed by their text, later entries winning;
/// entries whose key is not text are skipped.
pub open spec fn raw_entries_map(entries: Seq<(serde_yaml::Value, serde_yaml::Value)>) -> Map<
    Seq<char>,
    serde_yaml::Value,
>
    decreases entries.len(),
{
    if entries.len() == 0 {
        Map::empty()
    } else {
        let before = raw_entries_map(entries.drop_last());
        let (k, v) = entries.last();
        match yaml_text(k) {
            Some(t) => before.insert(t, v),
            None => before,
        }
    }
}

/// The text under `field`, when there is a string there.
pub open spec fn optional_text(doc: serde_yaml::Value, field: Seq<char>) -> Option<Seq<char>> {
    match yaml_field(doc, field) {
        Some(v) => yaml_text(v),
        None => None,
    }
}

/// The partial policy that a YAML document describes: each field is present
/// only when it is there with the right shape.
pub open spec fn read_partial_policy(doc: serde_yaml::Value) -> PartialModel {
    PartialModel {
        name: optional_text(doc, "name"@),
        community: optional_text(doc, "community"@),
        effects: match yaml_field(doc, "effects"@) {
            Some(ev) => match yaml_entries(ev) {
                Some(es) => Some(raw_entries_map(es)),
                None => None,
            },
            None => None,
        },
        adoption_rate: match yaml_field(doc, "adoption_rate"@) {
            Some(a) => if yaml_is_number(a) {
                Some(a)
            } else {
                None
            },
            None => None,
        },
    }
}

/// The entries of a mapping that have a text key, as (text, value) pairs in
/// document order.
pub open spec fn text_pairs(entries: Seq<(serde_yaml::Value, serde_yaml::Value)>) -> Seq<
    (Seq<char>, serde_yaml::Value),
>
    decreases entries.len(),
{
    if entries.len() == 0 {
        Seq::empty()
    } else {
        let before = text_pairs(entries.drop_last());
        let (k, v) = entries.last();
        match yaml_text(k) {
            Some(t) => before.push((t, v)),
            None => before,
        }
    }
}

/// Whether no two entries of a mapping have keys with the same text.
pub open spec fn text_keys_distinct(entries: Seq<(serde_yaml::Value, serde_yaml::Value)>) -> bool {
    forall|i: int, j: int|
        0 <= i < j < entries.len() && (#[trigger] yaml_text(entries[i].0)) is Some ==> yaml_text(
            entries[i].0,
        ) != #[trigger] yaml_text(entries[j].0)
}

/// Whether the entries of the `effects` mapping of `doc`, if it has one, have
/// keys with pairwise different texts.
pub open spec fn effects_keys_distinct(doc: serde_yaml::Value) -> bool {
    match yaml_field(doc, "effects"@) {
        Some(ev) => match yaml_entries(ev) {
            Some(es) => text_keys_distinct(es),
            None => true,
        },
        None => true,
    }
}

/// The effects that one (key, value) entry adds when read on its own.
pub open spec fn contribution(entry: (Seq<char>, serde_yaml::Value)) -> Map<
    Seq<char>,
    serde_yaml::Value,
> {
    absorb_effect(Map::empty(), entry.0, entry.1)
}

/// Whether each entry whose key text occurs again later adds no effect.
pub open spec fn repeats_add_nothing(entries: Seq<(Seq<char>, serde_yaml::Value)>) -> bool {
    forall|i: int, j: int|
        0 <= i < j < entries.len() && #[trigger] entries[i].0 == #[trigger] entries[j].0
            ==> contribution(entries[i]).dom() == Set::<Seq<char>>::empty()
}

/// Whether no two entries add an effect under the same key.
pub open spec fn contributions_disjoint(entries: Seq<(Seq<char>, serde_yaml::Value)>) -> bool {
    forall|i: int, j: int, x: Seq<char>|
        0 <= i < j < entries.len() && #[trigger] contribution(entries[i]).contains_key(x)
            ==> !#[trigger] contribution(entries[j]).contains_key(x)
}

/// Whether the `effects` mapping of `doc`, if it has one, repeats a key text
/// only at entries that add nothing, and adds each effect key at most once.
pub open spec fn effects_repeats_harmless(doc: serde_yaml::Value) -> bool {
    match yaml_field(doc, "effects"@) {
        Some(ev) => match yaml_entries(ev) {
            Some(es) => repeats_add_nothing(text_pairs(es)) && contributions_disjoint(
                text_pairs(es),
            ),
            None => true,
        },
        None => true,
    }
}

/// Whether `p` is the partial policy read from `doc`: its fields are those of
/// `read_partial_policy`, its effect pairs agree with its effect map, and when
/// the effect keys differ in text, its effects hold them in document order.
pub open spec fn partial_read_from(doc: serde_yaml::Value, p: PartialPolicy) -> bool {
    &&& p.model() == read_partial_policy(doc)
    &&& p.effects matches Some(e) ==> e.entries_agree()
    &&& effects_keys_distinct(doc) ==> match yaml_field(doc, "effects"@) {
        Some(ev) => match yaml_entries(ev) {
            Some(es) => p.effects matches Some(e) && e.pairs() == text_pairs(es),
            None => true,
        },
        None => true,
    }
}

/// Every key among the text pairs is the text of some entry's key.
proof fn lemma_text_pairs_keys(entries: Seq<(serde_yaml::Value, serde_yaml::Value)>)
    ensures
        forall|k: int|
            0 <= k < text_pairs(entries).len() ==> exists|j: int|
                0 <= j < entries.len() && yaml_text(entries[j].0) == Some(
                    #[trigger] text_pairs(entries)[k].0,
                ),
    decreases entries.len(),
{
    if entries.len() > 0 {
        let init = entries.drop_last();
        lemma_text_pairs_keys(init);
        assert forall|k: int| 0 <= k < text_pairs(entries).len() implies exists|j: int|
            0 <= j < entries.len() && yaml_text(entries[j].0) == Some(
                #[trigger] text_pairs(entries)[k].0,
            ) by {
            if k < text_pairs(init).len() {
                let j = choose|j: int|
                    0 <= j < init.len() && yaml_text(init[j].0) == Some(text_pairs(init)[k].0);
                assert(entries[j] == init[j]);
            } else {
                assert(yaml_text(entries[entries.len() - 1].0) == Some(
                    text_pairs(entries)[k].0,
                ));
            }
        }
    }
}

/// The text stored under `field`, if there is one.
fn optional_string_field(value: &serde_yaml::Value, field_name: &str) -> (r: Option<String>)
    ensures
        match r {
            Some(t) => optional_text(*value, field_name@) == Some(t@),
            None => optional_text(*value, field_name@) is None,
        },
{
    match field(value, field_name) {
        Some(v) => text_of(&v),
        None => None,
    }
}

/// The partial policy that a YAML document describes.
pub fn partial_policy_from_document(value: &serde_yaml::Value) -> (r: PartialPolicy)
    ensures
        partial_read_from(*value, r),
{
    let name = optional_string_field(value, "name");
    let community = optional_string_field(value, "community");
    let effects = match field(value, "effects") {
        Some(ev) => match entries_of(&ev) {
            Some(entries) => {
                let mut effects_map: TextMap<serde_yaml::Value> = TextMap::new();
                let mut i: usize = 0;
                proof {
                    assert(effects_map.pairs() =~= text_pairs(entries@.subrange(0, 0)));
                }
                while i < entries.len()
                    invariant
                        i <= entries.len(),
                        effects_map.spec_map() == raw_entries_map(
                            entries@.subrange(0, i as int),
                        ),
                        effects_map.entries_agree(),
                        text_keys_distinct(entries@) ==> effects_map.pairs() == text_pairs(
                            entries@.subrange(0, i as int),
                        ),
                    decreases entries.len() - i,
                {
                    let ghost prefix = entries@.subrange(0, i as int);
                    let ghost old_pairs = effects_map.pairs();
                    let ghost old_keys = effects_map.key_seq();
                    proof {
                        assert(entries@.subrange(0, i + 1).drop_last() =~= prefix);
                        assert(entries@.subrange(0, i + 1).last() == entries@[i as int]);
                    }
                    match text_of(&entries[i].0) {
                        Some(t) => {
                            let ghost tv = t@;
                            let ghost v = entries@[i as int].1;
                            proof {
                                if text_keys_distinct(entries@) {
                                    lemma_text_pairs_keys(prefix);
                                    if old_keys.contains(tv) {
                                        let k = old_keys.index_of(tv);
                                        assert(old_pairs[k].0 == tv);
                                        let j = choose|j: int|
                                            0 <= j < prefix.len() && yaml_text(prefix[j].0) == Some(
                                                text_pairs(prefix)[k].0,
                                            );
                                        assert(prefix[j] == entries@[j]);
                                        assert(yaml_text(entries@[j].0) == yaml_text(
                                            entries@[i as int].0,
                                        ));
                                        assert(false);
                                    }
                                }
                            }
                            effects_map.insert(t, copy_node(&entries[i].1));
                            proof {
                                if text_keys_distinct(entries@) {
                                    assert(effects_map.pairs() =~= old_pairs.push((tv, v)));
                                }
                            }
                        },
                        None => {},
                    }
                    i = i + 1;
                }
                proof {
                    assert(entries@.subrange(0, entries@.len() as int) =~= entries@);
                }
                Some(effects_map)
            },
            None => None,
        },
        None => None,
    };
    let adoption_rate = match field(value, "adoption_rate") {
        Some(a) => if is_number(&a) {
            Some(a)
        } else {
            None
        },
        None => None,
    };
    PartialPolicy { name, community, effects, adoption_rate }
}

/// Reads a partial policy from YAML text; only malformed YAML is an error.
pub fn parse_partial_policy(yaml: &str) -> (r: Result<PartialPolicy, PolicyError>)
    ensures
        match yaml_document(yaml@) {
            Err(e) => r matches Err(err) && err.fault() == PolicyFault::Yaml(e),
            Ok(doc) => r matches Ok(p) && partial_read_from(doc, p),
        },
{
    match parse_document(yaml) {
        Err(e) => Err(PolicyError::YamlError(e)),
        Ok(value) => Ok(partial_policy_from_document(&value)),
    }
}

/// The effects that result from adding the given (key, value) entries, in
/// order, to `m` as `absorb_effect` describes.
pub open spec fn merge_effects(
    m: Map<Seq<char>, serde_yaml::Value>,
    entries: Seq<(Seq<char>, serde_yaml::Value)>,
) -> Map<Seq<char>, serde_yaml::Value>
    decreases entries.len(),
{
    if entries.len() == 0 {
        m
    } else {
        let (k, v) = entries.last();
        absorb_effect(merge_effects(m, entries.drop_last()), k, v)
    }
}

/// The policy that completing `partial` from `template` gives: each field of
/// the partial policy that is present replaces the template's, and the partial
/// effects are added to the template's effects in their order.
pub open spec fn completed_policy(partial: PartialPolicy, template: Policy) -> PolicyModel {
    PolicyModel {
        id: template.id,
        name: match partial.name {
            Some(n) => n@,
            None => template.name@,
        },
        community: match partial.community {
            Some(c) => c@,
            None => template.community@,
        },
        effects: match partial.effects {
            Some(e) => merge_effects(template.effects.spec_map(), e.pairs()),
            None => template.effects.spec_map(),
        },
        adoption_rate: match partial.adoption_rate {
            Some(a) => a,
            None => template.adoption_rate,
        },
    }
}

/// A copy of an effect map.
fn copy_effects(effects: &TextMap<serde_yaml::Value>) -> (r: TextMap<serde_yaml::Value>)
    ensures
        r.spec_map() == effects.spec_map(),
{
    let mut out: TextMap<serde_yaml::Value> = TextMap::new();
    let n = effects.len();
    let mut i: usize = 0;
    while i < n
        invariant
            i <= n,
            n == effects.key_seq().len(),
            n == effects.value_seq().len(),
            out.spec_map() == Map::new(
                |k: Seq<char>| effects.key_seq().subrange(0, i as int).contains(k),
                |k: Seq<char>| effects.spec_map()[k],
            ),
        decreases n - i,
    {
        let key = effects.key_at(i).clone();
        let value = copy_node(effects.value_at(i));
        out.insert(key, value);
        proof {
            let ks = effects.key_seq();
            assert forall|k: Seq<char>| #[trigger] ks.subrange(0, i + 1).contains(k) <==> (
            ks.subrange(0, i as int).contains(k) || k == ks[i as int]) by {
                if ks.subrange(0, i + 1).contains(k) {
                    let j = ks.subrange(0, i + 1).index_of(k);
                    if j < i {
                        assert(ks.subrange(0, i as int)[j] == k);
                    }
                }
                if ks.subrange(0, i as int).contains(k) {
                    let j = ks.subrange(0, i as int).index_of(k);
                    assert(ks.subrange(0, i + 1)[j] == k);
                }
                if k == ks[i as int] {
                    assert(ks.subrange(0, i + 1)[i as int] == k);
                }
            }
            assert(out.spec_map() =~= Map::new(
                |k: Seq<char>| effects.key_seq().subrange(0, i + 1).contains(k),
                |k: Seq<char>| effects.spec_map()[k],
            ));
        }
        i = i + 1;
    }
    proof {
        assert(effects.key_seq().subrange(0, n as int) =~= effects.key_seq());
        assert(out.spec_map() =~= effects.spec_map());
    }
    out
}

impl Clone for Policy {
    /// A copy with the same fields.
    fn clone(&self) -> (r: Self)
        ensures
            r.model() == self.model(),
    {
        Policy {
            id: self.id,
            name: self.name.clone(),
            community: self.community.clone(),
            effects: copy_effects(&self.effects),
            adoption_rate: copy_node(&self.adoption_rate),
        }
    }
}

impl Clone for PartialPolicy {
    /// A copy with the same fields.
    fn clone(&self) -> (r: Self)
        ensures
            r.model() == self.model(),
    {
        let name = match &self.name {
            Some(n) => Some(n.clone()),
            None => None,
        };
        let community = match &self.community {
            Some(c) => Some(c.clone()),
            None => None,
        };
        let effects = match &self.effects {
            Some(e) => Some(copy_effects(e)),
            None => None,
        };
        let adoption_rate = match &self.adoption_rate {
            Some(a) => Some(copy_node(a)),
            None => None,
        };
        PartialPolicy { name, community, effects, adoption_rate }
    }
}

/// Completes `partial` from `template`; this never fails.
pub fn apply_template(partial: PartialPolicy, template: &Policy) -> (r: Result<Policy, PolicyError>)
    ensures
        r matches Ok(p) && p.model() == completed_policy(partial, *template),
{
    let ghost original = partial;
    let PartialPolicy { name, community, effects: partial_effects, adoption_rate } = partial;
    let name = match name {
        Some(n) => n,
        None => template.name.clone(),
    };
    let community = match community {
        Some(c) => c,
        None => template.community.clone(),
    };
    let mut effects = copy_effects(&template.effects);
    match partial_effects {
        Some(pe) => {
            let ghost base = effects.spec_map();
            let n = pe.len();
            let mut i: usize = 0;
            while i < n
                invariant
                    i <= n,
                    n == pe.key_seq().len(),
                    n == pe.value_seq().len(),
                    effects.spec_map() == merge_effects(base, pe.pairs().subrange(0, i as int)),
                decreases n - i,
            {
                proof {
                    assert(pe.pairs().subrange(0, i + 1).drop_last() =~= pe.pairs().subrange(
                        0,
                        i as int,
                    ));
                    assert(pe.pairs().subrange(0, i + 1).last() == pe.pairs()[i as int]);
                }
                absorb_effect_into(&mut effects, pe.key_at(i).as_str(), pe.value_at(i));
                i = i + 1;
            }
            proof {
                assert(pe.pairs().subrange(0, n as int) =~= pe.pairs());
            }
        },
        None => {},
    }
    let adoption_rate = match adoption_rate {
        Some(a) => a,
        None => copy_node(&template.adoption_rate),
    };
    Ok(Policy { id: template.id, name, community, effects, adoption_rate })
}

/// Every value of the map is a number node.
pub open spec fn all_numbers(m: Map<Seq<char>, serde_yaml::Value>) -> bool {
    forall|k: Seq<char>| #[trigger] m.contains_key(k) ==> yaml_is_number(m[k])
}

/// Adding nested entries keeps every value a number.
pub proof fn lemma_absorb_nested_numbers(
    m: Map<Seq<char>, serde_yaml::Value>,
    prefix: Seq<char>,
    nested: Seq<(serde_yaml::Value, serde_yaml::Value)>,
)
    requires
        all_numbers(m),
    ensures
        all_numbers(absorb_nested(m, prefix, nested)),
    decreases nested.len(),
{
    if nested.len() > 0 {
        lemma_absorb_nested_numbers(m, prefix, nested.drop_last());
    }
}

/// Adding one effect keeps every value a number.
pub proof fn lemma_absorb_effect_numbers(
    m: Map<Seq<char>, serde_yaml::Value>,
    key: Seq<char>,
    v: serde_yaml::Value,
)
    requires
        all_numbers(m),
    ensures
        all_numbers(absorb_effect(m, key, v)),
{
    if !yaml_is_number(v) {
        match yaml_entries(v) {
            Some(nested) => lemma_absorb_nested_numbers(m, key, nested),
            None => {},
        }
    }
}

/// The effects read from a policy document are all numbers.
pub proof fn lemma_read_effects_are_numbers(entries: Seq<(serde_yaml::Value, serde_yaml::Value)>)
    ensures
        all_numbers(effects_of_entries(entries)),
    decreases entries.len(),
{
    if entries.len() > 0 {
        lemma_read_effects_are_numbers(entries.drop_last());
        let (k, v) = entries.last();
        match yaml_text(k) {
            Some(t) => lemma_absorb_effect_numbers(effects_of_entries(entries.drop_last()), t, v),
            None => {},
        }
    }
}

/// A policy read from YAML has a number as its adoption rate and numbers as
/// all its effects.
pub proof fn lemma_read_policy_numbers(doc: serde_yaml::Value)
    ensures
        read_policy(doc) matches Ok(p) ==> yaml_is_number(p.adoption_rate) && all_numbers(p.effects),
{
    match yaml_field(doc, "effects"@) {
        Some(ev) => match yaml_entries(ev) {
            Some(es) => lemma_read_effects_are_numbers(es),
            None => {},
        },
        None => {},
    }
}

/// Merging partial effects into numbers keeps every value a number.
pub proof fn lemma_merge_effects_numbers(
    m: Map<Seq<char>, serde_yaml::Value>,
    entries: Seq<(Seq<char>, serde_yaml::Value)>,
)
    requires
        all_numbers(m),
    ensures
        all_numbers(merge_effects(m, entries)),
    decreases entries.len(),
{
    if entries.len() > 0 {
        lemma_merge_effects_numbers(m, entries.drop_last());
        let (k, v) = entries.last();
        lemma_absorb_effect_numbers(merge_effects(m, entries.drop_last()), k, v);
    }
}

/// Completing a partial policy from a template whose rate and effects are
/// numbers gives a policy whose rate and effects are numbers, when the
/// partial rate, if any, is a number.
pub proof fn lemma_completed_policy_numbers(partial: PartialPolicy, template: Policy)
    requires
        yaml_is_number(template.adoption_rate),
        all_numbers(template.effects.spec_map()),
        partial.adoption_rate matches Some(a) ==> yaml_is_number(a),
    ensures
        yaml_is_number(completed_policy(partial, template).adoption_rate),
        all_numbers(completed_policy(partial, template).effects),
{
    match partial.effects {
        Some(e) => lemma_merge_effects_numbers(template.effects.spec_map(), e.pairs()),
        None => {},
    }
}

/// Reading nested entries on top of `base` adds to `base` what reading them
/// alone gives.
proof fn lemma_absorb_nested_over(
    base: Map<Seq<char>, serde_yaml::Value>,
    m: Map<Seq<char>, serde_yaml::Value>,
    prefix: Seq<char>,
    nested: Seq<(serde_yaml::Value, serde_yaml::Value)>,
)
    ensures
        absorb_nested(base.union_prefer_right(m), prefix, nested) == base.union_prefer_right(
            absorb_nested(m, prefix, nested),
        ),
    decreases nested.len(),
{
    if nested.len() > 0 {
        lemma_absorb_nested_over(base, m, prefix, nested.drop_last());
        let (k, v) = nested.last();
        match yaml_text(k) {
            Some(t) => if yaml_is_number(v) {
                assert(base.union_prefer_right(absorb_nested(m, prefix, nested.drop_last())).insert(
                    prefix + "."@ + t,
                    v,
                ) =~= base.union_prefer_right(
                    absorb_nested(m, prefix, nested.drop_last()).insert(prefix + "."@ + t, v),
                ));
            },
            None => {},
        }
    }
}

/// Reading one effect on top of `base` adds to `base` what reading it alone
/// gives.
proof fn lemma_absorb_effect_over(
    base: Map<Seq<char>, serde_yaml::Value>,
    m: Map<Seq<char>, serde_yaml::Value>,
    key: Seq<char>,
    v: serde_yaml::Value,
)
    ensures
        absorb_effect(base.union_prefer_right(m), key, v) == base.union_prefer_right(
            absorb_effect(m, key, v),
        ),
{
    if yaml_is_number(v) {
        assert(base.union_prefer_right(m).insert(key, v) =~= base.union_prefer_right(
            m.insert(key, v),
        ));
    } else {
        match yaml_entries(v) {
            Some(nested) => lemma_absorb_nested_over(base, m, key, nested),
            None => {},
        }
    }
}

/// Merging effects into `base` adds to `base` what merging them into nothing
/// gives.
pub proof fn lemma_merge_effects_over(
    base: Map<Seq<char>, serde_yaml::Value>,
    entries: Seq<(Seq<char>, serde_yaml::Value)>,
)
    ensures
        merge_effects(base, entries) == base.union_prefer_right(
            merge_effects(Map::empty(), entries),
        ),
    decreases entries.len(),
{
    if entries.len() == 0 {
        assert(base.union_prefer_right(Map::empty()) =~= base);
    } else {
        lemma_merge_effects_over(base, entries.drop_last());
        let (k, v) = entries.last();
        lemma_absorb_effect_over(base, merge_effects(Map::empty(), entries.drop_last()), k, v);
    }
}

/// The effects of a policy document are the text-keyed entries merged in
/// document order.
pub proof fn lemma_effects_of_entries_merged(entries: Seq<(serde_yaml::Value, serde_yaml::Value)>)
    ensures
        effects_of_entries(entries) == merge_effects(Map::empty(), text_pairs(entries)),
    decreases entries.len(),
{
    if entries.len() > 0 {
        lemma_effects_of_entries_merged(entries.drop_last());
        let (k, v) = entries.last();
        match yaml_text(k) {
            Some(t) => {
                let before = text_pairs(entries.drop_last());
                assert(text_pairs(entries) == before.push((t, v)));
                assert(before.push((t, v)).drop_last() =~= before);
            },
            None => {},
        }
    }
}

/// The map that a sequence of (key, value) pairs gives, later pairs winning.
spec fn pairs_map(entries: Seq<(Seq<char>, serde_yaml::Value)>) -> Map<Seq<char>, serde_yaml::Value>
    decreases entries.len(),
{
    if entries.len() == 0 {
        Map::empty()
    } else {
        pairs_map(entries.drop_last()).insert(entries.last().0, entries.last().1)
    }
}

/// The raw entry map is the map of the text pairs.
proof fn lemma_raw_entries_map_pairs(entries: Seq<(serde_yaml::Value, serde_yaml::Value)>)
    ensures
        raw_entries_map(entries) == pairs_map(text_pairs(entries)),
    decreases entries.len(),
{
    if entries.len() > 0 {
        lemma_raw_entries_map_pairs(entries.drop_last());
        let (k, v) = entries.last();
        match yaml_text(k) {
            Some(t) => {
                let before = text_pairs(entries.drop_last());
                assert(before.push((t, v)).drop_last() =~= before);
            },
            None => {},
        }
    }
}

/// A key is in the map of pairs exactly when some pair has it, and then its
/// value is that of the last such pair.
proof fn lemma_pairs_map(entries: Seq<(Seq<char>, serde_yaml::Value)>, t: Seq<char>)
    ensures
        pairs_map(entries).contains_key(t) <==> exists|j: int|
            0 <= j < entries.len() && #[trigger] entries[j].0 == t,
        pairs_map(entries).contains_key(t) ==> exists|j: int|
            0 <= j < entries.len() && #[trigger] entries[j].0 == t && pairs_map(entries)[t]
                == entries[j].1 && forall|l: int| j < l < entries.len() ==> entries[l].0 != t,
    decreases entries.len(),
{
    if entries.len() > 0 {
        let init = entries.drop_last();
        let n = entries.len() - 1;
        lemma_pairs_map(init, t);
        if entries[n].0 == t {
            assert(entries[n].0 == t);
        } else {
            if exists|j: int| 0 <= j < init.len() && #[trigger] init[j].0 == t {
                let j = choose|j: int| 0 <= j < init.len() && #[trigger] init[j].0 == t;
                assert(entries[j] == init[j]);
            }
            if exists|j: int| 0 <= j < entries.len() && #[trigger] entries[j].0 == t {
                let j = choose|j: int| 0 <= j < entries.len() && #[trigger] entries[j].0 == t;
                assert(init[j] == entries[j]);
            }
            if pairs_map(entries).contains_key(t) {
                let j = choose|j: int|
                    0 <= j < init.len() && #[trigger] init[j].0 == t && pairs_map(init)[t]
                        == init[j].1 && forall|l: int| j < l < init.len() ==> init[l].0 != t;
                assert(entries[j] == init[j]);
                assert forall|l: int| j < l < entries.len() implies entries[l].0 != t by {
                    if l < init.len() {
                        assert(entries[l] == init[l]);
                    }
                }
            }
        }
    }
}

/// Reading one entry on top of `m` adds that entry's own effects to `m`.
proof fn lemma_absorb_effect_adds(m: Map<Seq<char>, serde_yaml::Value>, key: Seq<char>, v: serde_yaml::Value)
    ensures
        absorb_effect(m, key, v) == m.union_prefer_right(contribution((key, v))),
{
    lemma_absorb_effect_over(m, Map::empty(), key, v);
    assert(m.union_prefer_right(Map::empty()) =~= m);
}

/// Where at most one entry adds the key `x`, merging entries gives `x` the
/// value that entry adds, or leaves the value of `base`.
proof fn lemma_merge_at_key(
    base: Map<Seq<char>, serde_yaml::Value>,
    entries: Seq<(Seq<char>, serde_yaml::Value)>,
    x: Seq<char>,
)
    requires
        forall|i: int, j: int|
            0 <= i < j < entries.len() && #[trigger] contribution(entries[i]).contains_key(x)
                ==> !#[trigger] contribution(entries[j]).contains_key(x),
    ensures
        (forall|i: int| 0 <= i < entries.len() ==> !#[trigger] contribution(entries[i]).contains_key(x))
            ==> (merge_effects(base, entries).contains_key(x) == base.contains_key(x) && (
        base.contains_key(x) ==> merge_effects(base, entries)[x] == base[x])),
        forall|i: int|
            0 <= i < entries.len() && #[trigger] contribution(entries[i]).contains_key(x)
                ==> merge_effects(base, entries).contains_key(x) && merge_effects(base, entries)[x]
                == contribution(entries[i])[x],
    decreases entries.len(),
{
    if entries.len() > 0 {
        let init = entries.drop_last();
        let n = entries.len() - 1;
        assert forall|i: int, j: int|
            0 <= i < j < init.len() && #[trigger] contribution(init[i]).contains_key(x)
                implies !#[trigger] contribution(init[j]).contains_key(x) by {
            assert(init[i] == entries[i] && init[j] == entries[j]);
        }
        lemma_merge_at_key(base, init, x);
        let (k, v) = entries.last();
        lemma_absorb_effect_adds(merge_effects(base, init), k, v);
        assert(entries[n] == (k, v));
        assert forall|i: int|
            0 <= i < entries.len() && #[trigger] contribution(entries[i]).contains_key(x)
                implies merge_effects(base, entries).contains_key(x) && merge_effects(
                base,
                entries,
            )[x] == contribution(entries[i])[x] by {
            if i < n {
                assert(init[i] == entries[i]);
                assert(!contribution(entries[n]).contains_key(x));
            }
        }
        if forall|i: int| 0 <= i < entries.len() ==> !#[trigger] contribution(entries[i]).contains_key(x) {
            assert forall|i: int| 0 <= i < init.len() implies !#[trigger] contribution(init[i]).contains_key(x) by {
                assert(init[i] == entries[i]);
            }
            assert(!contribution(entries[n]).contains_key(x));
        }
    }
}

/// When repeated key texts add nothing and no two entries add the same key,
/// completing from `base` with the partial pairs (one per key text, holding
/// its last value) gives `base` overridden by reading the entries in order.
proof fn lemma_merge_partial_pairs(
    base: Map<Seq<char>, serde_yaml::Value>,
    doc_pairs: Seq<(Seq<char>, serde_yaml::Value)>,
    partial: TextMap<serde_yaml::Value>,
)
    requires
        repeats_add_nothing(doc_pairs),
        contributions_disjoint(doc_pairs),
        partial.entries_agree(),
        partial.spec_map() == pairs_map(doc_pairs),
    ensures
        merge_effects(base, partial.pairs()) == base.union_prefer_right(
            merge_effects(Map::empty(), doc_pairs),
        ),
{
    let ps = partial.pairs();
    let d = doc_pairs;
    // Each partial pair is the last document pair with its key text.
    assert forall|a: int| #![trigger ps[a]] 0 <= a < ps.len() implies exists|j: int|
        0 <= j < d.len() && #[trigger] d[j] == ps[a] && forall|l: int|
            j < l < d.len() ==> d[l].0 != d[j].0 by {
        lemma_pairs_map(d, ps[a].0);
        let j = choose|j: int|
            0 <= j < d.len() && #[trigger] d[j].0 == ps[a].0 && pairs_map(d)[ps[a].0] == d[j].1
                && forall|l: int| j < l < d.len() ==> d[l].0 != ps[a].0;
        assert(d[j] == ps[a]);
    }
    assert forall|x: Seq<char>| #[trigger] merge_effects(base, ps).contains_key(x) == base.union_prefer_right(
        merge_effects(Map::empty(), d),
    ).contains_key(x) && (merge_effects(base, ps).contains_key(x) ==> merge_effects(base, ps)[x]
        == base.union_prefer_right(merge_effects(Map::empty(), d))[x]) by {
        assert forall|i: int, j: int|
            0 <= i < j < d.len() && #[trigger] contribution(d[i]).contains_key(x)
                implies !#[trigger] contribution(d[j]).contains_key(x) by {}
        lemma_merge_at_key(Map::empty(), d, x);
        if exists|k: int| 0 <= k < d.len() && #[trigger] contribution(d[k]).contains_key(x) {
            let k = choose|k: int| 0 <= k < d.len() && #[trigger] contribution(d[k]).contains_key(x);
            let t = d[k].0;
            // d[k] is the last pair with its text.
            assert forall|l: int| k < l < d.len() implies d[l].0 != t by {
                if d[l].0 == t {
                    assert(contribution(d[k]).dom().contains(x));
                }
            }
            lemma_pairs_map(d, t);
            assert(pairs_map(d).contains_key(t));
            let a = choose|a: int| 0 <= a < ps.len() && ps[a].0 == t;
            let j = choose|j: int|
                0 <= j < d.len() && #[trigger] d[j] == ps[a] && forall|l: int|
                    j < l < d.len() ==> d[l].0 != d[j].0;
            assert(j == k) by {
                if j < k {
                    assert(d[k].0 == d[j].0);
                }
                if k < j {
                    assert(d[j].0 == t);
                }
            }
            assert forall|b1: int, b2: int|
                0 <= b1 < b2 < ps.len() && #[trigger] contribution(ps[b1]).contains_key(x)
                    implies !#[trigger] contribution(ps[b2]).contains_key(x) by {
                let j1 = choose|j: int|
                    0 <= j < d.len() && #[trigger] d[j] == ps[b1] && forall|l: int|
                        j < l < d.len() ==> d[l].0 != d[j].0;
                let j2 = choose|j: int|
                    0 <= j < d.len() && #[trigger] d[j] == ps[b2] && forall|l: int|
                        j < l < d.len() ==> d[l].0 != d[j].0;
                if contribution(ps[b2]).contains_key(x) {
                    assert(ps[b1].0 != ps[b2].0);
                    assert(j1 != j2);
                    if j1 < j2 {
                        assert(!contribution(d[j2]).contains_key(x));
                    } else {
                        assert(!contribution(d[j1]).contains_key(x));
                    }
                }
            }
            lemma_merge_at_key(base, ps, x);
            assert(contribution(ps[a]).contains_key(x));
        } else {
            assert forall|b1: int, b2: int|
                0 <= b1 < b2 < ps.len() && #[trigger] contribution(ps[b1]).contains_key(x)
                    implies !#[trigger] contribution(ps[b2]).contains_key(x) by {
                let j1 = choose|j: int|
                    0 <= j < d.len() && #[trigger] d[j] == ps[b1] && forall|l: int|
                        j < l < d.len() ==> d[l].0 != d[j].0;
                assert(!contribution(d[j1]).contains_key(x));
            }
            assert forall|b: int| 0 <= b < ps.len() implies !#[trigger] contribution(ps[b]).contains_key(x) by {
                let j = choose|j: int|
                    0 <= j < d.len() && #[trigger] d[j] == ps[b] && forall|l: int|
                        j < l < d.len() ==> d[l].0 != d[j].0;
                assert(!contribution(d[j]).contains_key(x));
            }
            lemma_merge_at_key(base, ps, x);
        }
    }
    assert(merge_effects(base, ps) =~= base.union_prefer_right(merge_effects(Map::empty(), d)));
}

/// Reading a document as a policy and as a partial policy agree: completing
/// the partial policy from any template gives the template's id and, for
/// everything else, what the policy reading gives, with the template's
/// effects kept where the document names no effect of the same key. This
/// holds when the effect keys of the document differ in text, and also when
/// an effect key text repeats only at entries that add nothing and no two
/// entries add the same effect key.
pub proof fn lemma_template_completes_policy_reading(
    doc: serde_yaml::Value,
    partial: PartialPolicy,
    template: Policy,
)
    requires
        read_policy(doc) is Ok,
        partial_read_from(doc, partial),
        effects_keys_distinct(doc) || effects_repeats_harmless(doc),
    ensures
        ({
            let q = read_policy(doc)->Ok_0;
            let c = completed_policy(partial, template);
            &&& c.id == template.id
            &&& c.name == q.name
            &&& c.community == q.community
            &&& c.adoption_rate == q.adoption_rate
            &&& c.effects == template.effects.spec_map().union_prefer_right(q.effects)
        }),
{
    let ev = yaml_field(doc, "effects"@)->Some_0;
    let es = yaml_entries(ev)->Some_0;
    let e = partial.effects->Some_0;
    lemma_effects_of_entries_merged(es);
    if effects_keys_distinct(doc) {
        lemma_merge_effects_over(template.effects.spec_map(), e.pairs());
    } else {
        lemma_raw_entries_map_pairs(es);
        lemma_merge_partial_pairs(template.effects.spec_map(), text_pairs(es), e);
    }
}

/// Reading a nested effect group keeps what was there and adds, for every
/// entry with a text key `t` and a number value, the key `prefix.t` with that
/// value, unless a later entry with the same key text also has a number;
/// nothing else is added.
pub proof fn lemma_nested_entry_is_kept(
    m: Map<Seq<char>, serde_yaml::Value>,
    prefix: Seq<char>,
    nested: Seq<(serde_yaml::Value, serde_yaml::Value)>,
    k: int,
)
    requires
        0 <= k < nested.len(),
        yaml_text(nested[k].0) is Some,
        yaml_is_number(nested[k].1),
        forall|l: int|
            k < l < nested.len() && yaml_text(#[trigger] nested[l].0) == yaml_text(nested[k].0)
                ==> !yaml_is_number(nested[l].1),
    ensures
        absorb_nested(m, prefix, nested).contains_key(
            prefix + "."@ + yaml_text(nested[k].0)->Some_0,
        ),
        absorb_nested(m, prefix, nested)[prefix + "."@ + yaml_text(nested[k].0)->Some_0]
            == nested[k].1,
    decreases nested.len(),
{
    let n = nested.len() - 1;
    let key = prefix + "."@ + yaml_text(nested[k].0)->Some_0;
    if k < n {
        let init = nested.drop_last();
        assert forall|l: int|
            k < l < init.len() && yaml_text(#[trigger] init[l].0) == yaml_text(init[k].0)
                implies !yaml_is_number(init[l].1) by {
            assert(init[l] == nested[l]);
        }
        lemma_nested_entry_is_kept(m, prefix, init, k);
        assert(init[k] == nested[k]);
        let (lk, lv) = nested.last();
        match yaml_text(lk) {
            Some(t) => if yaml_is_number(lv) {
                assert(nested[n] == (lk, lv));
                if yaml_text(lk) == yaml_text(nested[k].0) {
                    assert(!yaml_is_number(nested[n].1));
                }
                assert(prefix + "."@ + t != key) by {
                    if prefix + "."@ + t == key {
                        reveal_strlit(".");
                        assert((prefix + "."@ + t).subrange(
                            prefix.len() + 1 as int,
                            (prefix + "."@ + t).len() as int,
                        ) =~= t);
                        assert(key.subrange(prefix.len() + 1 as int, key.len() as int) =~= yaml_text(
                            nested[k].0,
                        )->Some_0);
                    }
                }
            },
            None => {},
        }
    }
}

/// Reading a nested effect group keeps every key that was there, and every
/// key it has is either one that was there or `prefix.t` for an entry with a
/// text key `t` and a number value.
pub proof fn lemma_nested_adds_only_numbers(
    m: Map<Seq<char>, serde_yaml::Value>,
    prefix: Seq<char>,
    nested: Seq<(serde_yaml::Value, serde_yaml::Value)>,
)
    ensures
        forall|x: Seq<char>| m.contains_key(x) ==> #[trigger] absorb_nested(m, prefix, nested).contains_key(x),
        forall|x: Seq<char>|
            #[trigger] absorb_nested(m, prefix, nested).contains_key(x) ==> m.contains_key(x)
                || exists|k: int|
                0 <= k < nested.len() && yaml_is_number(#[trigger] nested[k].1) && yaml_text(
                    nested[k].0,
                ) is Some && x == prefix + "."@ + yaml_text(nested[k].0)->Some_0,
    decreases nested.len(),
{
    if nested.len() > 0 {
        let init = nested.drop_last();
        lemma_nested_adds_only_numbers(m, prefix, init);
        assert forall|x: Seq<char>| m.contains_key(x) implies #[trigger] absorb_nested(
            m,
            prefix,
            nested,
        ).contains_key(x) by {
            assert(absorb_nested(m, prefix, init).contains_key(x));
        }
        assert forall|x: Seq<char>|
            #[trigger] absorb_nested(m, prefix, nested).contains_key(x) implies m.contains_key(x)
                || exists|k: int|
                0 <= k < nested.len() && yaml_is_number(#[trigger] nested[k].1) && yaml_text(
                    nested[k].0,
                ) is Some && x == prefix + "."@ + yaml_text(nested[k].0)->Some_0 by {
            if absorb_nested(m, prefix, init).contains_key(x) && !m.contains_key(x) {
                let k = choose|k: int|
                    0 <= k < init.len() && yaml_is_number(#[trigger] init[k].1) && yaml_text(
                        init[k].0,
                    ) is Some && x == prefix + "."@ + yaml_text(init[k].0)->Some_0;
                assert(nested[k] == init[k]);
            } else if !m.contains_key(x) {
                assert(nested[nested.len() - 1] == nested.last());
            }
        }
    }
}

/// In the effects of a policy document, an entry keeps its effect at the key
/// `x` it adds when no later entry adds `x` too.
proof fn lemma_last_effect_wins(
    entries: Seq<(serde_yaml::Value, serde_yaml::Value)>,
    j: int,
    x: Seq<char>,
)
    requires
        0 <= j < entries.len(),
        yaml_text(entries[j].0) is Some,
        contribution((yaml_text(entries[j].0)->Some_0, entries[j].1)).contains_key(x),
        forall|l: int|
            j < l < entries.len() && yaml_text(#[trigger] entries[l].0) is Some ==> !contribution(
                (yaml_text(entries[l].0)->Some_0, entries[l].1),
            ).contains_key(x),
    ensures
        effects_of_entries(entries).contains_key(x),
        effects_of_entries(entries)[x] == contribution(
            (yaml_text(entries[j].0)->Some_0, entries[j].1),
        )[x],
    decreases entries.len(),
{
    let n = entries.len() - 1;
    let init = entries.drop_last();
    let (k, v) = entries.last();
    assert(entries[n] == (k, v));
    if j < n {
        assert forall|l: int|
            j < l < init.len() && yaml_text(#[trigger] init[l].0) is Some implies !contribution(
                (yaml_text(init[l].0)->Some_0, init[l].1),
            ).contains_key(x) by {
            assert(init[l] == entries[l]);
        }
        assert(init[j] == entries[j]);
        lemma_last_effect_wins(init, j, x);
    }
    match yaml_text(k) {
        Some(t) => lemma_absorb_effect_adds(effects_of_entries(init), t, v),
        None => {},
    }
}

/// A number effect of a policy document is read under its own key, unless a
/// later entry adds an effect under the same key.
pub proof fn lemma_number_effect_is_kept(entries: Seq<(serde_yaml::Value, serde_yaml::Value)>, j: int)
    requires
        0 <= j < entries.len(),
        yaml_text(entries[j].0) is Some,
        yaml_is_number(entries[j].1),
        forall|l: int|
            j < l < entries.len() && yaml_text(#[trigger] entries[l].0) is Some ==> !contribution(
                (yaml_text(entries[l].0)->Some_0, entries[l].1),
            ).contains_key(yaml_text(entries[j].0)->Some_0),
    ensures
        effects_of_entries(entries).contains_key(yaml_text(entries[j].0)->Some_0),
        effects_of_entries(entries)[yaml_text(entries[j].0)->Some_0] == entries[j].1,
{
    lemma_last_effect_wins(entries, j, yaml_text(entries[j].0)->Some_0);
}

/// A nested number effect of a policy document, entry `k` of the group under
/// entry `j`, is read under `group.key`, unless a later entry of the group
/// with the same key text has a number, or a later entry of the document adds
/// an effect under the same key.
pub proof fn lemma_nested_effect_is_kept(
    entries: Seq<(serde_yaml::Value, serde_yaml::Value)>,
    j: int,
    k: int,
)
    requires
        0 <= j < entries.len(),
        yaml_text(entries[j].0) is Some,
        !yaml_is_number(entries[j].1),
        yaml_entries(entries[j].1) is Some,
        0 <= k < yaml_entries(entries[j].1)->Some_0.len(),
        yaml_text(yaml_entries(entries[j].1)->Some_0[k].0) is Some,
        yaml_is_number(yaml_entries(entries[j].1)->Some_0[k].1),
        forall|l: int|
            k < l < yaml_entries(entries[j].1)->Some_0.len() && yaml_text(
                #[trigger] yaml_entries(entries[j].1)->Some_0[l].0,
            ) == yaml_text(yaml_entries(entries[j].1)->Some_0[k].0) ==> !yaml_is_number(
                yaml_entries(entries[j].1)->Some_0[l].1,
            ),
        forall|l: int|
            j < l < entries.len() && yaml_text(#[trigger] entries[l].0) is Some ==> !contribution(
                (yaml_text(entries[l].0)->Some_0, entries[l].1),
            ).contains_key(
                yaml_text(entries[j].0)->Some_0 + "."@ + yaml_text(
                    yaml_entries(entries[j].1)->Some_0[k].0,
                )->Some_0,
            ),
    ensures
        ({
            let nested = yaml_entries(entries[j].1)->Some_0;
            let key = yaml_text(entries[j].0)->Some_0 + "."@ + yaml_text(nested[k].0)->Some_0;
            effects_of_entries(entries).contains_key(key) && effects_of_entries(entries)[key]
                == nested[k].1
        }),
{
    let nested = yaml_entries(entries[j].1)->Some_0;
    let g = yaml_text(entries[j].0)->Some_0;
    lemma_nested_entry_is_kept(Map::empty(), g, nested, k);
    lemma_last_effect_wins(entries, j, g + "."@ + yaml_text(nested[k].0)->Some_0);
}

/// Completing a partial policy from a template: each field the partial policy
/// has is taken from it, whatever other fields it has; each field it lacks is
/// the template's; the id is the template's; the template's effects are all
/// kept, and with no partial effects they are the effects.
pub proof fn lemma_completed_fields(partial: PartialPolicy, template: Policy)
    ensures
        completed_policy(partial, template).id == template.id,
        partial.name matches Some(n) ==> completed_policy(partial, template).name == n@,
        partial.name is None ==> completed_policy(partial, template).name == template.name@,
        partial.community matches Some(c) ==> completed_policy(partial, template).community == c@,
        partial.community is None ==> completed_policy(partial, template).community
            == template.community@,
        partial.adoption_rate matches Some(a) ==> completed_policy(partial, template).adoption_rate
            == a,
        partial.adoption_rate is None ==> completed_policy(partial, template).adoption_rate
            == template.adoption_rate,
        partial.effects is None ==> completed_policy(partial, template).effects
            == template.effects.spec_map(),
        forall|x: Seq<char>|
            #[trigger] template.effects.spec_map().contains_key(x) ==> completed_policy(
                partial,
                template,
            ).effects.contains_key(x),
{
    match partial.effects {
        Some(e) => lemma_merge_effects_over(template.effects.spec_map(), e.pairs()),
        None => {},
    }
}

/// A partial policy read from a document has each field that the document
/// has with the right shape: a string name or community, a mapping of
/// effects, a number adoption rate.
pub proof fn lemma_partial_reading_keeps_fields(doc: serde_yaml::Value)
    ensures
        optional_text(doc, "name"@) is Some ==> read_partial_policy(doc).name == optional_text(
            doc,
            "name"@,
        ),
        optional_text(doc, "community"@) is Some ==> read_partial_policy(doc).community
            == optional_text(doc, "community"@),
        yaml_field(doc, "adoption_rate"@) is Some && yaml_is_number(
            yaml_field(doc, "adoption_rate"@)->Some_0,
        ) ==> read_partial_policy(doc).adoption_rate == yaml_field(doc, "adoption_rate"@),
        yaml_field(doc, "effects"@) is Some && yaml_entries(yaml_field(doc, "effects"@)->Some_0) is Some
            ==> read_partial_policy(doc).effects is Some,
{
}

/// A document reads as a policy exactly when it has a string name, a string
/// community, a mapping of effects and a number adoption rate; the policy
/// then has id 0, that name, community and rate, and the effects read from
/// the mapping. A missing name is reported first.
pub proof fn lemma_policy_reading_fields(doc: serde_yaml::Value)
    ensures
        read_policy(doc) is Ok <==> {
            &&& yaml_field(doc, "name"@) is Some && yaml_text(yaml_field(doc, "name"@)->Some_0) is Some
            &&& yaml_field(doc, "community"@) is Some && yaml_text(
                yaml_field(doc, "community"@)->Some_0,
            ) is Some
            &&& yaml_field(doc, "effects"@) is Some && yaml_entries(
                yaml_field(doc, "effects"@)->Some_0,
            ) is Some
            &&& yaml_field(doc, "adoption_rate"@) is Some && yaml_is_number(
                yaml_field(doc, "adoption_rate"@)->Some_0,
            )
        },
        read_policy(doc) is Ok ==> {
            let q = read_policy(doc)->Ok_0;
            &&& q.id == 0
            &&& q.name == yaml_text(yaml_field(doc, "name"@)->Some_0)->Some_0
            &&& q.community == yaml_text(yaml_field(doc, "community"@)->Some_0)->Some_0
            &&& q.adoption_rate == yaml_field(doc, "adoption_rate"@)->Some_0
            &&& q.effects == effects_of_entries(
                yaml_entries(yaml_field(doc, "effects"@)->Some_0)->Some_0,
            )
        },
        yaml_field(doc, "name"@) is None ==> read_policy(doc) == Err::<PolicyModel, PolicyFault>(
            PolicyFault::MissingField("name"@),
        ),
{
}

/// A partial policy with no fields completes to the template itself.
pub proof fn lemma_empty_partial_gives_template(template: Policy)
    ensures
        completed_policy(
            PartialPolicy { name: None, community: None, effects: None, adoption_rate: None },
            template,
        ) == template.model(),
{
}

} // verus!
