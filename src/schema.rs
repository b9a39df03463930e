//! The class catalog: the API dump's shape, and its flattening into one
//! entry per class with the properties and events it inherits.

use vstd::prelude::*;
use vstd::hash_map::StringHashMap;
use vstd::string::*;

use crate::manager::last_instance;

verus! {

/// The API dump: every class of the engine.
#[derive(Debug, Clone)]
pub struct ApiDump {
    pub classes: Vec<Instance>,
}

/// One class of the API dump.
#[derive(Debug, Clone)]
pub struct Instance {
    pub members: Vec<Member>,
    pub memory_category: String,
    pub name: String,
    pub superclass: String,
    pub tags: Vec<String>,
}

/// One member of a class: a property, event, function or callback.
#[derive(Debug, Clone)]
pub struct Member {
    /// Member category (e.g. "Behavior").
    pub category: String,
    /// Member type (e.g. "Property").
    pub member_type: String,
    pub name: String,
    pub tags: Vec<String>,
    /// Value type (e.g. category "Primitive", name "bool").
    pub value_type: ValueType,
}

/// The security levels of a member.
#[derive(Debug, Clone)]
pub struct Security {
    pub read: String,
    pub write: String,
}

/// Whether a member is loaded and saved with a place.
#[derive(Debug, Clone)]
pub struct Serialization {
    pub can_load: bool,
    pub can_save: bool,
}

/// The type of a member's value.
#[derive(Debug, Clone)]
pub struct ValueType {
    /// Category of value (e.g. "Primitive").
    pub category: String,
    /// Name of the value's type (e.g. "bool").
    pub name: String,
}

impl Default for ValueType {
    fn default() -> (r: Self)
        ensures
            r.category@ == Seq::<char>::empty(),
            r.name@ == Seq::<char>::empty(),
    {
        ValueType { category: String::new(), name: String::new() }
    }
}

/// A class flattened for completion: its own and inherited properties and
/// events, each a name with its type.
#[derive(Debug, Clone)]
pub struct ParsedInstance {
    pub instance: String,
    pub superclass: String,
    pub properties: Vec<ParsedProperty>,
    pub events: Vec<ParsedProperty>,
}

/// A member kept for completion: its name and the name of its type.
#[derive(Debug, Clone)]
pub struct ParsedProperty {
    pub name: String,
    pub data_type: String,
}

/// A name with its type.
pub type Entry = (Seq<char>, Seq<char>);

/// The views of a list of kept members.
pub open spec fn entry_views(v: Seq<ParsedProperty>) -> Seq<Entry> {
    v.map_values(|p: ParsedProperty| (p.name@, p.data_type@))
}

/// Whether `tags` holds `tag`.
pub open spec fn has_tag(tags: Seq<String>, tag: Seq<char>) -> bool {
    exists|i: int| 0 <= i < tags.len() && (#[trigger] tags[i])@ == tag
}

/// Whether member `m` is kept as a member of kind `kind` ("Property" or
/// "Event"): of that kind and neither deprecated nor read-only.
pub open spec fn member_kept(m: Member, kind: Seq<char>) -> bool {
    m.member_type@ == kind && !has_tag(m.tags@, "Deprecated"@) && !has_tag(m.tags@, "ReadOnly"@)
}

/// The members of `ms` kept as kind `kind`, in order, as names with types.
pub open spec fn kept_members(ms: Seq<Member>, kind: Seq<char>) -> Seq<Entry>
    decreases ms.len(),
{
    if ms.len() == 0 {
        seq![]
    } else {
        let rest = kept_members(ms.drop_last(), kind);
        if member_kept(ms.last(), kind) {
            rest.push((ms.last().name@, ms.last().value_type.name@))
        } else {
            rest
        }
    }
}

/// The index of the last class among the first `n` named `name`; classes
/// later in the dump replace earlier ones of the same name.
pub open spec fn last_named(cs: Seq<Instance>, name: Seq<char>, n: int) -> Option<int>
    decreases n,
{
    if n <= 0 || n > cs.len() {
        None
    } else if cs[n - 1].name@ == name {
        Some(n - 1)
    } else {
        last_named(cs, name, n - 1)
    }
}

/// Whether a superclass name refers to a parent at all.
pub open spec fn names_parent(superclass: Seq<char>) -> bool {
    superclass.len() > 0 && superclass != "<ROOT>"@
}

/// The members of kind `kind` of class `i` followed by those it inherits,
/// following at most `fuel` superclass links.
pub open spec fn flat_members(cs: Seq<Instance>, i: int, fuel: nat, kind: Seq<char>) -> Seq<Entry>
    decreases fuel,
{
    if i < 0 || i >= cs.len() {
        seq![]
    } else {
        let own = kept_members(cs[i].members@, kind);
        if fuel > 0 && names_parent(cs[i].superclass@) {
            match last_named(cs, cs[i].superclass@, cs.len() as int) {
                Some(j) => own + flat_members(cs, j, (fuel - 1) as nat, kind),
                None => own,
            }
        } else {
            own
        }
    }
}

/// The flattened entry of class `i`: name, superclass, properties, events.
/// A chain of superclasses is followed for as many links as there are
/// classes, which covers every chain without a cycle.
pub open spec fn flattened(cs: Seq<Instance>, i: int) -> (Seq<char>, Seq<char>, Seq<Entry>, Seq<Entry>) {
    (
        cs[i].name@,
        cs[i].superclass@,
        flat_members(cs, i, cs.len(), "Property"@),
        flat_members(cs, i, cs.len(), "Event"@),
    )
}

/// The flattened entries of the first `n` classes, skipping each class that
/// a later one of the same name replaces.
pub open spec fn flattened_upto(cs: Seq<Instance>, n: int) -> Seq<(Seq<char>, Seq<char>, Seq<Entry>, Seq<Entry>)>
    decreases n,
{
    if n <= 0 || n > cs.len() {
        seq![]
    } else {
        let prev = flattened_upto(cs, n - 1);
        if last_named(cs, cs[n - 1].name@, cs.len() as int) == Some(n - 1) {
            prev.push(flattened(cs, n - 1))
        } else {
            prev
        }
    }
}

/// The view of a flattened class.
pub open spec fn parsed_view(p: ParsedInstance) -> (Seq<char>, Seq<char>, Seq<Entry>, Seq<Entry>) {
    (p.instance@, p.superclass@, entry_views(p.properties@), entry_views(p.events@))
}

fn tags_hold(tags: &Vec<String>, tag: &String) -> (r: bool)
    ensures
        r == has_tag(tags@, tag@),
{
    let mut i: usize = 0;
    while i < tags.len()
        invariant
            i <= tags@.len(),
            forall|k: int| 0 <= k < i ==> (#[trigger] tags@[k])@ != tag@,
        decreases tags@.len() - i,
    {
        if tags[i] == *tag {
            return true;
        }
        i = i + 1;
    }
    false
}

/// The constant strings the flattening compares against.
struct MemberKinds {
    property: String,
    event: String,
    deprecated: String,
    read_only: String,
    root: String,
}

fn member_kinds() -> (k: MemberKinds)
    ensures
        k.property@ == "Property"@,
        k.event@ == "Event"@,
        k.deprecated@ == "Deprecated"@,
        k.read_only@ == "ReadOnly"@,
        k.root@ == "<ROOT>"@,
{
    MemberKinds {
        property: String::from_str("Property"),
        event: String::from_str("Event"),
        deprecated: String::from_str("Deprecated"),
        read_only: String::from_str("ReadOnly"),
        root: String::from_str("<ROOT>"),
    }
}

/// Appends the members of `ms` kept as properties and as events.
fn push_kept(ms: &Vec<Member>, k: &MemberKinds, props: &mut Vec<ParsedProperty>, events: &mut Vec<ParsedProperty>)
    requires
        k.property@ == "Property"@,
        k.event@ == "Event"@,
        k.deprecated@ == "Deprecated"@,
        k.read_only@ == "ReadOnly"@,
    ensures
        entry_views(final(props)@) == entry_views(old(props)@) + kept_members(ms@, "Property"@),
        entry_views(final(events)@) == entry_views(old(events)@) + kept_members(ms@, "Event"@),
{
    let ghost props0 = entry_views(props@);
    let ghost events0 = entry_views(events@);
    let mut i: usize = 0;
    while i < ms.len()
        invariant
            i <= ms@.len(),
            k.property@ == "Property"@,
            k.event@ == "Event"@,
            k.deprecated@ == "Deprecated"@,
            k.read_only@ == "ReadOnly"@,
            entry_views(props@) == props0 + kept_members(ms@.take(i as int), "Property"@),
            entry_views(events@) == events0 + kept_members(ms@.take(i as int), "Event"@),
        decreases ms@.len() - i,
    {
        let m = &ms[i];
        assert(ms@.take(i + 1).drop_last() =~= ms@.take(i as int));
        assert(ms@.take(i + 1).last() == m);
        let fresh = !tags_hold(&m.tags, &k.deprecated) && !tags_hold(&m.tags, &k.read_only);
        if fresh && m.member_type == k.property {
            let ghost before = props@;
            props.push(ParsedProperty { name: m.name.clone(), data_type: m.value_type.name.clone() });
            assert(entry_views(props@) =~= entry_views(before).push((m.name@, m.value_type.name@)));
        }
        if fresh && m.member_type == k.event {
            let ghost before = events@;
            events.push(ParsedProperty { name: m.name.clone(), data_type: m.value_type.name.clone() });
            assert(entry_views(events@) =~= entry_views(before).push((m.name@, m.value_type.name@)));
        }
        i = i + 1;
    }
    assert(ms@.take(ms@.len() as int) =~= ms@);
}

/// Maps each class name to the index of the last class with that name.
fn index_by_name(cs: &Vec<Instance>) -> (m: StringHashMap<usize>)
    ensures
        forall|name: Seq<char>|
            #![trigger m@.contains_key(name)]
            match last_named(cs@, name, cs@.len() as int) {
                Some(j) => m@.contains_key(name) && m@[name] == j,
                None => !m@.contains_key(name),
            },
{
    let mut m: StringHashMap<usize> = StringHashMap::new();
    let mut i: usize = 0;
    while i < cs.len()
        invariant
            i <= cs@.len(),
            forall|name: Seq<char>|
                #![trigger m@.contains_key(name)]
                match last_named(cs@, name, i as int) {
                    Some(j) => m@.contains_key(name) && m@[name] == j,
                    None => !m@.contains_key(name),
                },
        decreases cs@.len() - i,
    {
        m.insert(cs[i].name.clone(), i);
        i = i + 1;
    }
    m
}

proof fn lemma_last_named_bounds(cs: Seq<Instance>, name: Seq<char>, n: int)
    ensures
        last_named(cs, name, n) matches Some(j) ==> 0 <= j < n && j < cs.len() && cs[j].name@
            == name,
    decreases n,
{
    if 0 < n <= cs.len() && cs[n - 1].name@ != name {
        lemma_last_named_bounds(cs, name, n - 1);
    }
}

/// Flattens the API dump: one entry per class name (a later class replaces
/// an earlier one of the same name), in dump order, each with its own kept
/// properties and events followed by those of its superclass chain.
pub fn process_api_dump_json(api_dump_json: &ApiDump) -> (r: Vec<ParsedInstance>)
    ensures
        r@.map_values(|p: ParsedInstance| parsed_view(p)) == flattened_upto(
            api_dump_json.classes@,
            api_dump_json.classes@.len() as int,
        ),
{
    let cs = &api_dump_json.classes;
    let n = cs.len();
    let k = member_kinds();
    let by_name = index_by_name(cs);
    let mut r: Vec<ParsedInstance> = Vec::new();
    let mut i: usize = 0;
    while i < n
        invariant
            n == cs@.len(),
            cs == &api_dump_json.classes,
            i <= n,
            k.property@ == "Property"@,
            k.event@ == "Event"@,
            k.deprecated@ == "Deprecated"@,
            k.read_only@ == "ReadOnly"@,
            k.root@ == "<ROOT>"@,
            forall|name: Seq<char>|
                #![trigger by_name@.contains_key(name)]
                match last_named(cs@, name, n as int) {
                    Some(j) => by_name@.contains_key(name) && by_name@[name] == j,
                    None => !by_name@.contains_key(name),
                },
            r@.map_values(|p: ParsedInstance| parsed_view(p)) == flattened_upto(cs@, i as int),
        decreases n - i,
    {
        let name = &cs[i].name;
        proof {
            lemma_last_named_bounds(cs@, name@, n as int);
        }
        let is_last = match by_name.get(name.as_str()) {
            Some(j) => *j == i,
            None => false,
        };
        if is_last {
            let mut props: Vec<ParsedProperty> = Vec::new();
            let mut events: Vec<ParsedProperty> = Vec::new();
            let mut cur: usize = i;
            let mut fuel: usize = n;
            loop
                invariant_except_break
                    flat_members(cs@, i as int, n as nat, "Property"@) == entry_views(props@)
                        + flat_members(cs@, cur as int, fuel as nat, "Property"@),
                    flat_members(cs@, i as int, n as nat, "Event"@) == entry_views(events@)
                        + flat_members(cs@, cur as int, fuel as nat, "Event"@),
                invariant
                    n == cs@.len(),
                    cur < n,
                    fuel <= n,
                    k.property@ == "Property"@,
                    k.event@ == "Event"@,
                    k.deprecated@ == "Deprecated"@,
                    k.read_only@ == "ReadOnly"@,
                    k.root@ == "<ROOT>"@,
                    forall|name: Seq<char>|
                        #![trigger by_name@.contains_key(name)]
                        match last_named(cs@, name, n as int) {
                            Some(j) => by_name@.contains_key(name) && by_name@[name] == j,
                            None => !by_name@.contains_key(name),
                        },
                ensures
                    flat_members(cs@, i as int, n as nat, "Property"@) == entry_views(props@),
                    flat_members(cs@, i as int, n as nat, "Event"@) == entry_views(events@),
                decreases fuel,
            {
                let ghost p0 = entry_views(props@);
                let ghost e0 = entry_views(events@);
                push_kept(&cs[cur].members, &k, &mut props, &mut events);
                let sup = &cs[cur].superclass;
                let parent = if fuel > 0 && !sup.as_str().is_empty() && *sup != k.root {
                    match by_name.get(sup.as_str()) {
                        Some(j) => Some(*j),
                        None => None,
                    }
                } else {
                    None
                };
                proof {
                    let own_p = kept_members(cs@[cur as int].members@, "Property"@);
                    let own_e = kept_members(cs@[cur as int].members@, "Event"@);
                    lemma_last_named_bounds(cs@, sup@, n as int);
                    match parent {
                        Some(j) => {
                            assert((p0 + own_p) + flat_members(cs@, j as int, (fuel - 1) as nat, "Property"@)
                                =~= p0 + (own_p + flat_members(cs@, j as int, (fuel - 1) as nat, "Property"@)));
                            assert((e0 + own_e) + flat_members(cs@, j as int, (fuel - 1) as nat, "Event"@)
                                =~= e0 + (own_e + flat_members(cs@, j as int, (fuel - 1) as nat, "Event"@)));
                        },
                        None => {},
                    }
                }
                match parent {
                    Some(j) => {
                        cur = j;
                        fuel = fuel - 1;
                    },
                    None => {
                        break ;
                    },
                }
            }
            let ghost before = r@;
            r.push(
                ParsedInstance {
                    instance: name.clone(),
                    superclass: cs[i].superclass.clone(),
                    properties: props,
                    events: events,
                },
            );
            assert(r@.map_values(|p: ParsedInstance| parsed_view(p)) =~= before.map_values(
                |p: ParsedInstance| parsed_view(p),
            ).push(flattened(cs@, i as int)));
        }
        i = i + 1;
    }
    r
}

/// The properties of the entry for class `name` followed by those of the
/// entries for its superclass chain, following at most `fuel` links; the
/// last entry of a name counts.
pub open spec fn chain_properties(ps: Seq<ParsedInstance>, name: Seq<char>, fuel: nat) -> Seq<Entry>
    decreases fuel,
{
    match last_instance(ps, name, ps.len() as int) {
        None => seq![],
        Some(j) => entry_views(ps[j].properties@) + if fuel > 0 && names_parent(
            ps[j].superclass@,
        ) {
            chain_properties(ps, ps[j].superclass@, (fuel - 1) as nat)
        } else {
            seq![]
        },
    }
}

proof fn lemma_last_instance_bounds(ps: Seq<ParsedInstance>, name: Seq<char>, n: int)
    ensures
        last_instance(ps, name, n) matches Some(j) ==> 0 <= j < n && j < ps.len(),
    decreases n,
{
    if 0 < n <= ps.len() && ps[n - 1].instance@ != name {
        lemma_last_instance_bounds(ps, name, n - 1);
    }
}

/// Maps each class name to the index of its last entry.
fn index_entries(ps: &Vec<ParsedInstance>) -> (m: StringHashMap<usize>)
    ensures
        forall|name: Seq<char>|
            #![trigger m@.contains_key(name)]
            match last_instance(ps@, name, ps@.len() as int) {
                Some(j) => m@.contains_key(name) && m@[name] == j,
                None => !m@.contains_key(name),
            },
{
    let mut m: StringHashMap<usize> = StringHashMap::new();
    let mut i: usize = 0;
    while i < ps.len()
        invariant
            i <= ps@.len(),
            forall|name: Seq<char>|
                #![trigger m@.contains_key(name)]
                match last_instance(ps@, name, i as int) {
                    Some(j) => m@.contains_key(name) && m@[name] == j,
                    None => !m@.contains_key(name),
                },
        decreases ps@.len() - i,
    {
        m.insert(ps[i].instance.clone(), i);
        i = i + 1;
    }
    m
}

/// The properties of class `instance_name` and of its superclass chain,
/// read from the entries `metadata` (the last entry of a name counts); a
/// chain is followed for as many links as there are entries. `None` when
/// that finds no property.
pub fn get_metadata(metadata: &Vec<ParsedInstance>, instance_name: &str) -> (r: Option<Vec<ParsedProperty>>)
    ensures
        match r {
            Some(v) => entry_views(v@) == chain_properties(metadata@, instance_name@, metadata@.len() as nat)
                && v@.len() > 0,
            None => chain_properties(metadata@, instance_name@, metadata@.len() as nat).len() == 0,
        },
{
    let n = metadata.len();
    let root = String::from_str("<ROOT>");
    let by_name = index_entries(metadata);
    let mut props: Vec<ParsedProperty> = Vec::new();
    let mut name = String::from_str(instance_name);
    let mut fuel: usize = n;
    loop
        invariant_except_break
            chain_properties(metadata@, instance_name@, n as nat) == entry_views(props@)
                + chain_properties(metadata@, name@, fuel as nat),
        invariant
            n == metadata@.len(),
            fuel <= n,
            root@ == "<ROOT>"@,
            forall|k: Seq<char>|
                #![trigger by_name@.contains_key(k)]
                match last_instance(metadata@, k, n as int) {
                    Some(j) => by_name@.contains_key(k) && by_name@[k] == j,
                    None => !by_name@.contains_key(k),
                },
        ensures
            chain_properties(metadata@, instance_name@, n as nat) == entry_views(props@),
        decreases fuel,
    {
        proof {
            lemma_last_instance_bounds(metadata@, name@, n as int);
        }
        let j = match by_name.get(name.as_str()) {
            Some(j) => *j,
            None => {
                assert(entry_views(props@) + seq![] =~= entry_views(props@));
                break ;
            },
        };
        let entry = &metadata[j];
        let ghost before = entry_views(props@);
        let mut q: usize = 0;
        while q < entry.properties.len()
            invariant
                q <= entry.properties@.len(),
                entry_views(props@) =~= before + entry_views(entry.properties@.take(q as int)),
            decreases entry.properties@.len() - q,
        {
            let p = &entry.properties[q];
            let ghost prev = props@;
            props.push(ParsedProperty { name: p.name.clone(), data_type: p.data_type.clone() });
            assert(entry_views(props@) =~= entry_views(prev).push((p.name@, p.data_type@)));
            assert(entry_views(entry.properties@.take(q + 1)) =~= entry_views(
                entry.properties@.take(q as int),
            ).push((p.name@, p.data_type@)));
            q = q + 1;
        }
        assert(entry.properties@.take(entry.properties@.len() as int) =~= entry.properties@);
        let sup = &entry.superclass;
        if fuel > 0 && !sup.as_str().is_empty() && *sup != root {
            proof {
                let rest = chain_properties(metadata@, sup@, (fuel - 1) as nat);
                assert(before + (entry_views(entry.properties@) + rest) =~= (before + entry_views(
                    entry.properties@,
                )) + rest);
            }
            name = sup.clone();
            fuel = fuel - 1;
        } else {
            assert(before + (entry_views(entry.properties@) + seq![]) =~= before + entry_views(
                entry.properties@,
            ));
            break ;
        }
    }
    if props.len() == 0 {
        None
    } else {
        Some(props)
    }
}

} // verus!
