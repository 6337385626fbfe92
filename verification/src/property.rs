//! Reactive property registry: a publish/subscribe key-value store whose
//! named properties are materialized lazily as entities, with a per-tick
//! maintenance pipeline of three ordered phases (materialize pending names,
//! detect structural changes, apply batched update events).
//!
//! A property name moves through three states: `Unknown` (never asked for),
//! `Pending` (a consumer asked, no backing entity yet) and `Resolved` (bound
//! to an entity). A lookup miss registers the name in the pending set; the
//! next maintenance pass drains that set in one snapshot and materializes
//! every drained name into an entity holding an absent value, parented under
//! a lazily created root grouping entity.

use vstd::prelude::*;

verus! {

/// Value of a property: absent, a boolean toggle, a text, or a color given
/// by its three channel bit patterns (kept as raw bits so that storing and
/// propagating a color is exact).
#[derive(Debug, Clone, PartialEq)]
pub enum PropertyValue {
    Absent,
    Bool(bool),
    Text(String),
    Color(u32, u32, u32),
}

impl PropertyValue {
    /// A copy equal to `self` (deep copy of the text payload).
    pub fn dup(&self) -> (r: PropertyValue)
        ensures
            r == *self,
    {
        match self {
            PropertyValue::Absent => PropertyValue::Absent,
            PropertyValue::Bool(b) => PropertyValue::Bool(*b),
            PropertyValue::Text(s) => PropertyValue::Text(s.clone()),
            PropertyValue::Color(r, g, b) => PropertyValue::Color(*r, *g, *b),
        }
    }
}

impl Default for PropertyValue {
    fn default() -> (r: Self)
        ensures
            r == PropertyValue::Absent,
    {
        PropertyValue::Absent
    }
}

/// State of a property name in the registry: never asked for, awaiting its
/// backing entity, or bound to one.
#[derive(Clone, Copy, PartialEq, Eq, Structural, Debug)]
pub enum PropertyState {
    Unknown,
    Pending,
    Resolved(u64),
}

/// Binding reported for a known name: awaiting its entity, or bound to one.
#[derive(Clone, Copy, PartialEq, Eq, Structural, Debug)]
pub enum PropertyBinding {
    Pending,
    Resolved(u64),
}

/// One entry of the registry's name table: a name bound to the entity that
/// backs it.
pub struct PropertyNameEntry {
    pub name: String,
    pub id: u64,
}

/// A property entity: the backing store of one named property, owned (for
/// introspection) by the root grouping entity once a maintenance pass has
/// seen it. `fresh` marks an entity created since the last pass.
pub struct PropertyEntity {
    pub id: u64,
    pub name: String,
    pub value: PropertyValue,
    pub parent: Option<u64>,
    pub fresh: bool,
}

/// Read-side cache bound to one property name.
pub struct PropertyAccess {
    pub name: String,
    pub cache: PropertyValue,
}

impl Default for PropertyAccess {
    fn default() -> (r: Self)
        ensures
            r.name@ == Seq::<char>::empty(),
            r.cache == PropertyValue::Absent,
    {
        PropertyAccess { name: String::new(), cache: PropertyValue::Absent }
    }
}

/// Accessor slot held by the registry; `fresh` marks a binding made since
/// the last maintenance pass.
struct AccessSlot {
    access: PropertyAccess,
    fresh: bool,
}

/// A named update request, applied by the third maintenance phase.
#[derive(Debug)]
pub struct PropertyUpdateEvent {
    name: String,
    value: PropertyValue,
}

impl PropertyUpdateEvent {
    /// Name this event targets.
    pub closed spec fn name_view(&self) -> Seq<char> {
        self.name@
    }

    /// Value this event carries.
    pub closed spec fn value_spec(&self) -> PropertyValue {
        self.value
    }

    pub fn new(name: String, value: PropertyValue) -> (e: Self)
        ensures
            e.name_view() == name@,
            e.value_spec() == value,
    {
        PropertyUpdateEvent { name, value }
    }
}

/// Index of the first table entry at or after `i` whose name reads `name`,
/// or `-1` if there is none.
pub open spec fn find_name(s: Seq<PropertyNameEntry>, name: Seq<char>, i: int) -> int
    recommends
        0 <= i,
    decreases s.len() - i,
{
    if i < 0 || i >= s.len() {
        -1
    } else if s[i].name@ == name {
        i
    } else {
        find_name(s, name, i + 1)
    }
}

/// Index of the first pending name at or after `i` reading `name`, or `-1`.
pub open spec fn find_str(s: Seq<String>, name: Seq<char>, i: int) -> int
    recommends
        0 <= i,
    decreases s.len() - i,
{
    if i < 0 || i >= s.len() {
        -1
    } else if s[i]@ == name {
        i
    } else {
        find_str(s, name, i + 1)
    }
}

/// Index of the first entity at or after `i` with identity `id`, or `-1`.
pub open spec fn find_prop(s: Seq<PropertyEntity>, id: u64, i: int) -> int
    recommends
        0 <= i,
    decreases s.len() - i,
{
    if i < 0 || i >= s.len() {
        -1
    } else if s[i].id == id {
        i
    } else {
        find_prop(s, id, i + 1)
    }
}

/// What `find_name` returns: `-1` exactly when no entry from `i` on
/// matches, and otherwise the first matching index.
pub proof fn lemma_find_name_spec(s: Seq<PropertyNameEntry>, name: Seq<char>, i: int)
    requires
        0 <= i,
    ensures
        find_name(s, name, i) == -1 ==> forall|k: int| i <= k < s.len() ==> s[k].name@ != name,
        find_name(s, name, i) != -1 ==> {
            &&& i <= find_name(s, name, i) < s.len()
            &&& s[find_name(s, name, i)].name@ == name
            &&& forall|k: int| i <= k < find_name(s, name, i) ==> s[k].name@ != name
        },
    decreases s.len() - i,
{
    if i < s.len() && s[i].name@ != name {
        lemma_find_name_spec(s, name, i + 1);
    }
}

/// What `find_str` returns, in the same form.
pub proof fn lemma_find_str_spec(s: Seq<String>, name: Seq<char>, i: int)
    requires
        0 <= i,
    ensures
        find_str(s, name, i) == -1 ==> forall|k: int| i <= k < s.len() ==> s[k]@ != name,
        find_str(s, name, i) != -1 ==> {
            &&& i <= find_str(s, name, i) < s.len()
            &&& s[find_str(s, name, i)]@ == name
            &&& forall|k: int| i <= k < find_str(s, name, i) ==> s[k]@ != name
        },
    decreases s.len() - i,
{
    if i < s.len() && s[i]@ != name {
        lemma_find_str_spec(s, name, i + 1);
    }
}

/// What `find_prop` returns, in the same form.
pub proof fn lemma_find_prop_spec(s: Seq<PropertyEntity>, id: u64, i: int)
    requires
        0 <= i,
    ensures
        find_prop(s, id, i) == -1 ==> forall|k: int| i <= k < s.len() ==> s[k].id != id,
        find_prop(s, id, i) != -1 ==> {
            &&& i <= find_prop(s, id, i) < s.len()
            &&& s[find_prop(s, id, i)].id == id
            &&& forall|k: int| i <= k < find_prop(s, id, i) ==> s[k].id != id
        },
    decreases s.len() - i,
{
    if i < s.len() && s[i].id != id {
        lemma_find_prop_spec(s, id, i + 1);
    }
}

/// Extending the entity list (or rewriting entities without touching their
/// identities) does not move an identity that was already found.
proof fn lemma_find_prop_extend(oldp: Seq<PropertyEntity>, newp: Seq<PropertyEntity>, id: u64)
    requires
        oldp.len() <= newp.len(),
        forall|j: int| 0 <= j < oldp.len() ==> (#[trigger] newp[j]).id == oldp[j].id,
        find_prop(oldp, id, 0) != -1,
    ensures
        find_prop(newp, id, 0) == find_prop(oldp, id, 0),
{
    lemma_find_prop_spec(oldp, id, 0);
    lemma_find_prop_spec(newp, id, 0);
    let k0 = find_prop(oldp, id, 0);
    let k1 = find_prop(newp, id, 0);
    if k1 == -1 {
        assert(newp[k0].id == id);
        assert(false);
    } else if k1 < k0 {
        assert(oldp[k1].id == id);
        assert(false);
    } else if k1 > k0 {
        assert(newp[k0].id == id);
        assert(false);
    }
}

/// The value a batch of update events leaves for a name: the value of the
/// last event in the batch that targets the name, if any targets it at all.
/// Earlier events for the same name are overwritten — last write wins.
pub open spec fn effective_update(
    events: Seq<PropertyUpdateEvent>,
    name: Seq<char>,
) -> Option<PropertyValue>
    decreases events.len(),
{
    if events.len() == 0 {
        None
    } else if events.last().name_view() == name {
        Some(events.last().value_spec())
    } else {
        effective_update(events.drop_last(), name)
    }
}

/// Index of the last event in the batch that targets `name`, or `-1`.
pub open spec fn last_update_index(events: Seq<PropertyUpdateEvent>, name: Seq<char>) -> int
    decreases events.len(),
{
    if events.len() == 0 {
        -1
    } else if events.last().name_view() == name {
        events.len() - 1
    } else {
        last_update_index(events.drop_last(), name)
    }
}

/// Last write wins: a batch of update events leaves a name holding exactly
/// the value of the last event that targets it — every earlier event for
/// the same name is overwritten, and a name no event targets is untouched.
pub proof fn lemma_last_write_wins(events: Seq<PropertyUpdateEvent>, name: Seq<char>)
    ensures
        last_update_index(events, name) == -1 <==> effective_update(events, name) is None,
        last_update_index(events, name) == -1 ==> forall|l: int|
            0 <= l < events.len() ==> events[l].name_view() != name,
        last_update_index(events, name) != -1 ==> {
            &&& 0 <= last_update_index(events, name) < events.len()
            &&& events[last_update_index(events, name)].name_view() == name
            &&& effective_update(events, name) == Some(
                events[last_update_index(events, name)].value_spec(),
            )
            &&& forall|l: int|
                last_update_index(events, name) < l < events.len() ==> events[l].name_view() != name
        },
    decreases events.len(),
{
    if events.len() > 0 && events.last().name_view() != name {
        let sub = events.drop_last();
        lemma_last_write_wins(sub, name);
        assert(sub.len() == events.len() - 1);
        assert(forall|l: int| 0 <= l < sub.len() ==> events[l] == #[trigger] sub[l]);
        let lm = last_update_index(events, name);
        if lm == -1 {
            assert forall|l: int| 0 <= l < events.len() implies events[l].name_view() != name by {
                if l < events.len() - 1 {
                    assert(events[l] == sub[l]);
                    assert(sub[l].name_view() != name);
                } else {
                    assert(events[l] == events.last());
                }
            }
        } else {
            assert(events[lm] == sub[lm]);
            assert forall|l: int|
                lm < l < events.len() implies events[l].name_view() != name by {
                if l < events.len() - 1 {
                    assert(events[l] == sub[l]);
                    assert(sub[l].name_view() != name);
                } else {
                    assert(events[l] == events.last());
                }
            }
        }
    }
}

/// The name table after linking every fresh entity from `i` on: an entity
/// still marked fresh whose name is absent from the table gains an entry
/// binding its name to its identity; entities processed earlier in the fold
/// shadow later ones of the same name.
pub open spec fn link_fresh(
    entries: Seq<PropertyNameEntry>,
    props: Seq<PropertyEntity>,
    i: int,
) -> Seq<PropertyNameEntry>
    recommends
        0 <= i,
    decreases props.len() - i,
{
    if i < 0 || i >= props.len() {
        entries
    } else if props[i].fresh && find_name(entries, props[i].name@, 0) == -1 {
        link_fresh(
            entries.push(PropertyNameEntry { name: props[i].name, id: props[i].id }),
            props,
            i + 1,
        )
    } else {
        link_fresh(entries, props, i + 1)
    }
}

/// Current value of the property a name resolves to: the value stored on
/// the entity that the name table binds the name to.
pub open spec fn value_for(
    entries: Seq<PropertyNameEntry>,
    props: Seq<PropertyEntity>,
    name: Seq<char>,
) -> PropertyValue
    recommends
        find_name(entries, name, 0) != -1,
{
    let j = find_name(entries, name, 0);
    let k = find_prop(props, entries[j].id, 0);
    props[k].value
}

/// Extending the name table does not move a name that was already found.
proof fn lemma_find_name_extend(
    olde: Seq<PropertyNameEntry>,
    newe: Seq<PropertyNameEntry>,
    name: Seq<char>,
)
    requires
        olde.len() <= newe.len(),
        forall|j: int| 0 <= j < olde.len() ==> #[trigger] newe[j] == olde[j],
        find_name(olde, name, 0) != -1,
    ensures
        find_name(newe, name, 0) == find_name(olde, name, 0),
{
    lemma_find_name_spec(olde, name, 0);
    lemma_find_name_spec(newe, name, 0);
    let k0 = find_name(olde, name, 0);
    let k1 = find_name(newe, name, 0);
    if k1 == -1 {
        assert(newe[k0].name@ == name);
        assert(false);
    } else if k1 < k0 {
        assert(olde[k1].name@ == name);
        assert(false);
    } else if k1 > k0 {
        assert(newe[k0].name@ == name);
        assert(false);
    }
}

/// Linking only appends: the fold adds entries at the end of the table and
/// leaves every existing entry in place.
pub proof fn lemma_link_fresh_extends(
    entries: Seq<PropertyNameEntry>,
    props: Seq<PropertyEntity>,
    i: int,
)
    requires
        0 <= i,
    ensures
        entries.len() <= link_fresh(entries, props, i).len(),
        forall|k: int|
            0 <= k < entries.len() ==> #[trigger] link_fresh(entries, props, i)[k] == entries[k],
    decreases props.len() - i,
{
    if i < props.len() {
        if props[i].fresh && find_name(entries, props[i].name@, 0) == -1 {
            let pushed = entries.push(
                PropertyNameEntry { name: props[i].name, id: props[i].id },
            );
            lemma_link_fresh_extends(pushed, props, i + 1);
            assert(forall|k: int|
                0 <= k < entries.len() ==> #[trigger] pushed[k] == entries[k]);
        } else {
            lemma_link_fresh_extends(entries, props, i + 1);
        }
    }
}

/// Accessor synchronization reads the current value: linking fresh entities
/// moves no existing binding, so an accessor bound to an already-resolved
/// name is synchronized to exactly the value that property already holds —
/// no update event is needed.
pub proof fn lemma_accessor_sync(
    entries: Seq<PropertyNameEntry>,
    props: Seq<PropertyEntity>,
    name: Seq<char>,
)
    requires
        find_name(entries, name, 0) != -1,
    ensures
        find_name(link_fresh(entries, props, 0), name, 0) == find_name(entries, name, 0),
        value_for(link_fresh(entries, props, 0), props, name) == value_for(entries, props, name),
{
    let linked = link_fresh(entries, props, 0);
    lemma_link_fresh_extends(entries, props, 0);
    lemma_find_name_extend(entries, linked, name);
    lemma_find_name_spec(entries, name, 0);
    let j = find_name(entries, name, 0);
    assert(linked[j] == entries[j]);
}

/// The value the batch leaves for `key`, found by scanning backwards from
/// the most recently enqueued event.
fn effective_of(events: &Vec<PropertyUpdateEvent>, key: &String) -> (r: Option<PropertyValue>)
    ensures
        r == effective_update(events@, key@),
{
    proof {
        assert(events@.subrange(0, events@.len() as int) =~= events@);
    }
    let mut j = events.len();
    while j > 0
        invariant
            0 <= j <= events@.len(),
            effective_update(events@, key@) == effective_update(
                events@.subrange(0, j as int),
                key@,
            ),
        decreases j,
    {
        proof {
            assert(events@.subrange(0, j as int).last() == events@[j - 1]);
        }
        if events[j - 1].name == *key {
            return Some(events[j - 1].value.dup());
        }
        proof {
            assert(events@.subrange(0, j as int).drop_last() =~= events@.subrange(
                0,
                j - 1 as int,
            ));
        }
        j = j - 1;
    }
    None
}

/// The registry: the name table, the pending set, the materialized property
/// entities, the bound accessors, the lazily created root grouping entity,
/// and the next entity identity to hand out. An explicit context object:
/// create one at application start and pass it to every lookup and
/// maintenance call.
pub struct PropertyRegistry {
    names: Vec<PropertyNameEntry>,
    pending: Vec<String>,
    props: Vec<PropertyEntity>,
    slots: Vec<AccessSlot>,
    root: Option<u64>,
    next_id: u64,
}

impl PropertyRegistry {
    /// The name table, in resolution order.
    pub closed spec fn entries(self) -> Seq<PropertyNameEntry> {
        self.names@
    }

    /// The names awaiting materialization, in registration order.
    pub closed spec fn pending_view(self) -> Seq<String> {
        self.pending@
    }

    /// The property entities, in creation order.
    pub closed spec fn props(self) -> Seq<PropertyEntity> {
        self.props@
    }

    /// The bound accessors, in binding order.
    pub closed spec fn accessors(self) -> Seq<PropertyAccess> {
        self.slots@.map_values(|s: AccessSlot| s.access)
    }

    /// Whether the accessor at `i` was bound since the last maintenance pass.
    pub closed spec fn accessor_fresh(self, i: int) -> bool {
        self.slots@[i].fresh
    }

    /// The root grouping entity, once created.
    pub closed spec fn root_spec(self) -> Option<u64> {
        self.root
    }

    /// The next entity identity to be handed out.
    pub closed spec fn next_id_spec(self) -> u64 {
        self.next_id
    }

    /// Binding of a name: resolved if the name table knows it, pending if it
    /// sits in the pending set, and unknown otherwise.
    pub open spec fn binding_of(self, name: Seq<char>) -> Option<PropertyBinding> {
        let j = find_name(self.entries(), name, 0);
        if j != -1 {
            Some(PropertyBinding::Resolved(self.entries()[j].id))
        } else if find_str(self.pending_view(), name, 0) != -1 {
            Some(PropertyBinding::Pending)
        } else {
            None
        }
    }

    /// The entity a given identity denotes, if any.
    pub open spec fn prop_of(self, id: u64) -> Option<PropertyEntity> {
        let k = find_prop(self.props(), id, 0);
        if k == -1 {
            None
        } else {
            Some(self.props()[k])
        }
    }

    /// First entity identity the next maintenance pass hands out: the
    /// current `next_id`, shifted by one when the root grouping entity must
    /// be created first (it is created lazily, with the first pending name).
    pub open spec fn alloc_base(self) -> int {
        self.next_id_spec() + if self.root_spec() is None && self.pending_view().len() > 0 {
            1int
        } else {
            0int
        }
    }

    /// Internal consistency: table names are unique, pending names are
    /// unique and not in the table, every table entry denotes an existing
    /// entity carrying that name, entity identities are unique and below
    /// `next_id` (as is the root's), every recorded parent is the root, and
    /// `next_id` counts the allocations made so far (one per entity, plus
    /// one for the root).
    pub open spec fn wf(self) -> bool {
        &&& forall|i: int, j: int|
            0 <= i < j < self.entries().len() ==> self.entries()[i].name@ != self.entries()[j].name@
        &&& forall|i: int, j: int|
            0 <= i < j < self.pending_view().len() ==> self.pending_view()[i]@
                != self.pending_view()[j]@
        &&& forall|i: int|
            0 <= i < self.pending_view().len() ==> find_name(
                self.entries(),
                (#[trigger] self.pending_view()[i])@,
                0,
            ) == -1
        &&& forall|i: int|
            0 <= i < self.entries().len() ==> {
                let k = find_prop(self.props(), (#[trigger] self.entries()[i]).id, 0);
                &&& k != -1
                &&& self.props()[k].name@ == self.entries()[i].name@
            }
        &&& forall|k: int, l: int|
            0 <= k < l < self.props().len() ==> self.props()[k].id != self.props()[l].id
        &&& forall|k: int|
            0 <= k < self.props().len() ==> (#[trigger] self.props()[k].id) < self.next_id_spec()
        &&& (self.root_spec() matches Some(r) ==> r < self.next_id_spec())
        &&& forall|k: int|
            0 <= k < self.props().len() ==> ((#[trigger] self.props()[k].parent) matches Some(p)
                ==> self.root_spec() == Some(p))
        &&& self.next_id_spec() == self.props().len() + (if self.root_spec() is Some {
            1int
        } else {
            0int
        })
    }

    /// An empty registry: no names, no entities, no accessors, no root.
    pub fn new() -> (r: Self)
        ensures
            r.wf(),
            r.entries().len() == 0,
            r.pending_view().len() == 0,
            r.props().len() == 0,
            r.accessors().len() == 0,
            r.root_spec() is None,
            r.next_id_spec() == 0,
    {
        PropertyRegistry {
            names: Vec::new(),
            pending: Vec::new(),
            props: Vec::new(),
            slots: Vec::new(),
            root: None,
            next_id: 0,
        }
    }

    /// Index of the table entry for `key`, if the table knows the name.
    fn find_entry(&self, key: &String) -> (r: Option<usize>)
        ensures
            r is Some ==> r->Some_0 == find_name(self.entries(), key@, 0),
            r is None ==> find_name(self.entries(), key@, 0) == -1,
    {
        let n = self.names.len();
        let mut i: usize = 0;
        while i < n
            invariant
                n == self.names@.len(),
                0 <= i <= n,
                forall|k: int| 0 <= k < i ==> self.names@[k].name@ != key@,
            decreases n - i,
        {
            if self.names[i].name == *key {
                proof {
                    lemma_find_name_spec(self.names@, key@, 0);
                }
                return Some(i);
            }
            i = i + 1;
        }
        proof {
            lemma_find_name_spec(self.names@, key@, 0);
        }
        None
    }

    /// Index of `key` in the pending set, if it is registered there.
    fn find_pending(&self, key: &String) -> (r: Option<usize>)
        ensures
            r is Some ==> r->Some_0 == find_str(self.pending_view(), key@, 0),
            r is None ==> find_str(self.pending_view(), key@, 0) == -1,
    {
        let n = self.pending.len();
        let mut i: usize = 0;
        while i < n
            invariant
                n == self.pending@.len(),
                0 <= i <= n,
                forall|k: int| 0 <= k < i ==> self.pending@[k]@ != key@,
            decreases n - i,
        {
            if self.pending[i] == *key {
                proof {
                    lemma_find_str_spec(self.pending@, key@, 0);
                }
                return Some(i);
            }
            i = i + 1;
        }
        proof {
            lemma_find_str_spec(self.pending@, key@, 0);
        }
        None
    }

    /// State of a name: a pure query, unlike [`PropertyRegistry::get`].
    pub fn state_of(&self, name: &str) -> (r: PropertyState)
        ensures
            r == (match self.binding_of(name@) {
                Option::None => PropertyState::Unknown,
                Option::Some(PropertyBinding::Pending) => PropertyState::Pending,
                Option::Some(PropertyBinding::Resolved(e)) => PropertyState::Resolved(e),
            }),
    {
        let key: String = name.to_owned();
        match self.find_entry(&key) {
            Some(i) => {
                proof {
                    lemma_find_name_spec(self.entries(), name@, 0);
                }
                PropertyState::Resolved(self.names[i].id)
            },
            None => {
                if self.find_pending(&key).is_some() {
                    PropertyState::Pending
                } else {
                    PropertyState::Unknown
                }
            },
        }
    }

    /// Look a name up. Returns the resolved entity if the name is bound;
    /// otherwise returns `None` ("not yet available") and, if the name was
    /// never asked for, registers it as pending so that the next
    /// maintenance pass materializes it. Callers must tolerate `None` and
    /// retry on a later tick: it is the expected state for a freshly
    /// referenced name, not an error.
    pub fn get(&mut self, name: &str) -> (r: Option<u64>)
        requires
            old(self).wf(),
        ensures
            final(self).wf(),
            final(self).entries() == old(self).entries(),
            final(self).props() == old(self).props(),
            final(self).accessors() == old(self).accessors(),
            forall|i: int|
                0 <= i < final(self).accessors().len() ==> final(self).accessor_fresh(i) == old(self).accessor_fresh(i),
            final(self).root_spec() == old(self).root_spec(),
            final(self).next_id_spec() == old(self).next_id_spec(),
            match old(self).binding_of(name@) {
                Option::Some(PropertyBinding::Resolved(e)) => r == Some(e) && final(self).pending_view() == old(self).pending_view(),
                Option::Some(PropertyBinding::Pending) => r is None && final(self).pending_view()
                    == old(self).pending_view(),
                Option::None => {
                    &&& r is None
                    &&& final(self).pending_view().len() == old(self).pending_view().len() + 1
                    &&& final(self).pending_view().subrange(
                        0,
                        old(self).pending_view().len() as int,
                    ) == old(self).pending_view()
                    &&& final(self).pending_view().last()@ == name@
                    &&& final(self).binding_of(name@) == Some(PropertyBinding::Pending)
                },
            },
    {
        let key: String = name.to_owned();
        match self.find_entry(&key) {
            Some(i) => {
                proof {
                    lemma_find_name_spec(self.entries(), name@, 0);
                }
                Some(self.names[i].id)
            },
            None => {
                if self.find_pending(&key).is_none() {
                    let ghost old_pending = self.pending@;
                    self.pending.push(key);
                    proof {
                        assert(self.pending@.subrange(0, old_pending.len() as int)
                            =~= old_pending);
                        lemma_find_str_spec(old_pending, name@, 0);
                        lemma_find_str_spec(self.pending@, name@, 0);
                        assert forall|i: int, j: int|
                            0 <= i < j < self.pending@.len() implies self.pending@[i]@
                            != self.pending@[j]@ by {
                            if j == old_pending.len() as int {
                                assert(self.pending@[i]@ != name@);
                            }
                        }
                    }
                }
                None
            },
        }
    }

    /// Materialize a property entity directly, outside the pending
    /// pipeline: the entity starts fresh (to be linked into the name table
    /// and under the root by the next maintenance pass) and carries the
    /// given name and value.
    pub fn spawn_property(&mut self, name: String, value: PropertyValue) -> (id: u64)
        requires
            old(self).wf(),
            old(self).props().len() + 2 <= u64::MAX,
        ensures
            final(self).wf(),
            id == old(self).next_id_spec(),
            final(self).next_id_spec() == old(self).next_id_spec() + 1,
            final(self).entries() == old(self).entries(),
            final(self).pending_view() == old(self).pending_view(),
            final(self).accessors() == old(self).accessors(),
            forall|i: int|
                0 <= i < final(self).accessors().len() ==> final(self).accessor_fresh(i) == old(self).accessor_fresh(i),
            final(self).root_spec() == old(self).root_spec(),
            final(self).props() == old(self).props().push(
                PropertyEntity {
                    id: old(self).next_id_spec(),
                    name,
                    value,
                    parent: None,
                    fresh: true,
                },
            ),
    {
        let id: u64 = self.next_id;
        self.next_id = self.next_id + 1;
        self.props.push(PropertyEntity { id, name, value, parent: None, fresh: true });
        proof {
            let oldp = old(self).props();
            let newp = self.props@;
            assert(self.entries() == old(self).entries());
            assert(self.pending_view() == old(self).pending_view());
            assert(self.root_spec() == old(self).root_spec());
            assert forall|i: int| 0 <= i < self.names@.len() implies {
                let k = find_prop(newp, (#[trigger] self.names@[i]).id, 0);
                &&& k != -1
                &&& newp[k].name@ == self.names@[i].name@
            } by {
                assert(old(self).entries()[i] == self.names@[i]);
                let e = old(self).entries()[i].id;
                let k0 = find_prop(old(self).props(), e, 0);
                assert(k0 != -1 && old(self).props()[k0].name@ == old(self).entries()[i].name@);
                lemma_find_prop_extend(oldp, newp, e);
                lemma_find_prop_spec(oldp, e, 0);
                assert(0 <= k0 < oldp.len());
                assert(newp[k0] == oldp[k0]);
                assert(find_prop(newp, e, 0) == k0);
            }
            assert forall|k: int, l: int| 0 <= k < l < newp.len() implies newp[k].id
                != newp[l].id by {
                if l == newp.len() - 1 {
                    assert(newp[k] == oldp[k]);
                    assert(oldp[k].id < old(self).next_id_spec());
                } else {
                    assert(newp[k] == oldp[k] && newp[l] == oldp[l]);
                }
            }
            assert forall|k: int| 0 <= k < newp.len() implies (#[trigger] newp[k].id)
                < self.next_id by {
                if k < newp.len() - 1 {
                    assert(newp[k] == oldp[k]);
                    assert(oldp[k].id < old(self).next_id_spec());
                }
            }
            assert forall|k: int|
                0 <= k < newp.len() && (#[trigger] newp[k].parent) is Some implies self.root
                == newp[k].parent by {
                assert(k < newp.len() - 1);
                assert(newp[k] == oldp[k]);
                assert(old(self).root_spec() == Some(oldp[k].parent->Some_0));
            }
        }
        id
    }

    /// Bind a new accessor to a name. The accessor starts fresh with an
    /// absent cache; the next maintenance pass eagerly fills the cache from
    /// the property's current value. Returns the accessor's index.
    pub fn bind_accessor(&mut self, name: String) -> (i: usize)
        requires
            old(self).wf(),
        ensures
            final(self).wf(),
            i == old(self).accessors().len(),
            final(self).entries() == old(self).entries(),
            final(self).pending_view() == old(self).pending_view(),
            final(self).props() == old(self).props(),
            final(self).root_spec() == old(self).root_spec(),
            final(self).next_id_spec() == old(self).next_id_spec(),
            final(self).accessors().len() == old(self).accessors().len() + 1,
            final(self).accessors().subrange(0, old(self).accessors().len() as int) == old(self).accessors(),
            final(self).accessors().last().name == name,
            final(self).accessors().last().cache == PropertyValue::Absent,
            final(self).accessor_fresh(old(self).accessors().len() as int),
            forall|k: int|
                0 <= k < old(self).accessors().len() ==> final(self).accessor_fresh(k) == old(self).accessor_fresh(k),
    {
        let i = self.slots.len();
        self.slots.push(
            AccessSlot {
                access: PropertyAccess { name, cache: PropertyValue::Absent },
                fresh: true,
            },
        );
        proof {
            assert(final(self).accessors().subrange(0, old(self).accessors().len() as int)
                =~= old(self).accessors());
            assert(self.entries() == old(self).entries());
            assert(self.pending_view() == old(self).pending_view());
            assert(self.props() == old(self).props());
            assert(self.root_spec() == old(self).root_spec());
            assert(self.next_id_spec() == old(self).next_id_spec());
            assert(self.wf());
        }
        i
    }

    /// First maintenance phase: materialize pending names. The pending set
    /// is drained in one snapshot; the `v`-th drained name becomes a table
    /// entry resolved to a freshly created entity holding an absent value,
    /// parented under the root grouping entity (created lazily, with the
    /// first drained name). No other binding moves.
    #[verifier::rlimit(60)]
    #[verifier::spinoff_prover]
    pub fn create_pending(&mut self)
        requires
            old(self).wf(),
            old(self).props().len() + old(self).pending_view().len() + 2 <= u64::MAX,
        ensures
            final(self).wf(),
            final(self).accessors() == old(self).accessors(),
            forall|i: int|
                0 <= i < final(self).accessors().len() ==> final(self).accessor_fresh(i) == old(self).accessor_fresh(i),
            final(self).pending_view().len() == 0,
            final(self).root_spec() == (if old(self).root_spec() is Some {
                old(self).root_spec()
            } else if old(self).pending_view().len() > 0 {
                Some(old(self).next_id_spec())
            } else {
                None::<u64>
            }),
            final(self).next_id_spec() == old(self).alloc_base() + old(self).pending_view().len(),
            final(self).entries().len() == old(self).entries().len() + old(self).pending_view().len(),
            forall|k: int|
                0 <= k < old(self).entries().len() ==> final(self).entries()[k] == old(self).entries()[k],
            forall|v: int|
                0 <= v < old(self).pending_view().len() ==> {
                    &&& (#[trigger] final(self).entries()[old(self).entries().len() + v]).name
                        == old(self).pending_view()[v]
                    &&& final(self).entries()[old(self).entries().len() + v].id == (old(self).alloc_base() + v) as u64
                },
            final(self).props().len() == old(self).props().len() + old(self).pending_view().len(),
            forall|k: int|
                0 <= k < old(self).props().len() ==> final(self).props()[k] == old(self).props()[k],
            forall|v: int|
                0 <= v < old(self).pending_view().len() ==> {
                    &&& (#[trigger] final(self).props()[old(self).props().len() + v]).id == (old(self).alloc_base() + v) as u64
                    &&& final(self).props()[old(self).props().len() + v].name == old(self).pending_view()[v]
                    &&& final(self).props()[old(self).props().len() + v].value
                        == PropertyValue::Absent
                    &&& final(self).props()[old(self).props().len() + v].parent == final(self).root_spec()
                    &&& final(self).props()[old(self).props().len() + v].fresh == true
                },
            // pending names turn resolved: every name that was awaiting
            // materialization is now bound to its fresh entity
            forall|v: int|
                0 <= v < old(self).pending_view().len() ==> final(self).binding_of(
                    (#[trigger] old(self).pending_view()[v])@,
                ) == Some(PropertyBinding::Resolved((old(self).alloc_base() + v) as u64)),
    {
        let ghost orig = *old(self);
        let ghost pend0 = orig.pending_view();
        let ghost n0 = orig.entries().len() as int;
        let ghost p0 = orig.props().len() as int;
        let ghost base = orig.alloc_base();
        let ghost rt = orig.root_spec();
        let ghost nx = orig.next_id_spec();
        let n = self.pending.len();
        let mut w: usize = 0;
        while w < n
            invariant
                nx == p0 + (if rt is Some {
                    1int
                } else {
                    0int
                }),
                p0 + n + 2 <= u64::MAX,
                n == pend0.len(),
                base == nx + (if rt is None && n > 0 {
                    1int
                } else {
                    0int
                }),
                0 <= w <= n,
                0 <= n0,
                0 <= p0,
                self.pending@ == pend0,
                self.slots@ == orig.slots@,
                self.names@.len() == n0 + w,
                forall|k: int| 0 <= k < n0 ==> #[trigger] self.names@[k] == orig.entries()[k],
                forall|v: int|
                    0 <= v < w ==> {
                        &&& (#[trigger] self.names@[n0 + v]).name == pend0[v]
                        &&& self.names@[n0 + v].id == (base + v) as u64
                    },
                self.props@.len() == p0 + w,
                forall|k: int| 0 <= k < p0 ==> #[trigger] self.props@[k] == orig.props()[k],
                forall|v: int|
                    0 <= v < w ==> {
                        &&& (#[trigger] self.props@[p0 + v]).id == (base + v) as u64
                        &&& self.props@[p0 + v].name == pend0[v]
                        &&& self.props@[p0 + v].value == PropertyValue::Absent
                        &&& self.props@[p0 + v].parent == self.root
                        &&& self.props@[p0 + v].fresh == true
                    },
                self.root == (if rt is Some {
                    rt
                } else if w > 0 {
                    Some(nx)
                } else {
                    None::<u64>
                }),
                self.next_id as int == nx + (if rt is None && w > 0 {
                    1int
                } else {
                    0int
                }) + w,
            decreases n - w,
        {
            let root_id: u64 = match self.root {
                Some(r) => r,
                None => {
                    let r = self.next_id;
                    self.next_id = self.next_id + 1;
                    self.root = Some(r);
                    r
                },
            };
            let id: u64 = self.next_id;
            self.next_id = self.next_id + 1;
            let ghost names_before = self.names@;
            let ghost props_before = self.props@;
            let nm = self.pending[w].clone();
            let ghost entry_pushed = PropertyNameEntry { name: nm, id };
            self.names.push(PropertyNameEntry { name: nm, id });
            let nm2 = self.pending[w].clone();
            let ghost prop_pushed = PropertyEntity {
                id,
                name: nm2,
                value: PropertyValue::Absent,
                parent: Some(root_id),
                fresh: true,
            };
            self.props.push(
                PropertyEntity {
                    id,
                    name: nm2,
                    value: PropertyValue::Absent,
                    parent: Some(root_id),
                    fresh: true,
                },
            );
            proof {
                assert(self.names@.len() == n0 + w + 1);
                assert(id == (base + w) as u64);
                assert forall|v: int| 0 <= v < w + 1 implies {
                    &&& (#[trigger] self.names@[n0 + v]).name == pend0[v]
                    &&& self.names@[n0 + v].id == (base + v) as u64
                } by {
                    broadcast use vstd::seq::axiom_seq_push_index_different;

                    if v < w {
                        assert(self.names@ == names_before.push(entry_pushed));
                        assert(names_before.len() == n0 + w);
                        assert(names_before.push(entry_pushed)[n0 + v] == names_before[n0 + v]);
                    } else {
                        assert(self.names@[n0 + v].name == pend0[w as int]);
                    }
                }
                assert forall|v: int| 0 <= v < w + 1 implies {
                    &&& (#[trigger] self.props@[p0 + v]).id == (base + v) as u64
                    &&& self.props@[p0 + v].name == pend0[v]
                    &&& self.props@[p0 + v].value == PropertyValue::Absent
                    &&& self.props@[p0 + v].parent == self.root
                    &&& self.props@[p0 + v].fresh == true
                } by {
                    broadcast use vstd::seq::axiom_seq_push_index_different;

                    if v < w {
                        assert(self.props@ == props_before.push(prop_pushed));
                        assert(props_before.len() == p0 + w);
                        assert(props_before.push(prop_pushed)[p0 + v] == props_before[p0 + v]);
                    } else {
                        assert(self.props@[p0 + v].name == pend0[w as int]);
                    }
                }
            }
            w = w + 1;
        }
        self.pending.clear();
        proof {
            self.lemma_wf_after_materialize(orig);
            assert forall|v: int| 0 <= v < pend0.len() implies self.binding_of(
                (#[trigger] pend0[v])@,
            ) == Some(PropertyBinding::Resolved((base + v) as u64)) by {
                lemma_find_name_spec(self.names@, pend0[v]@, 0);
                let r = find_name(self.names@, pend0[v]@, 0);
                assert(self.names@[n0 + v].name@ == pend0[v]@);
                assert(r != -1);
                if r != n0 + v {
                    assert(self.names@[r].name@ == self.names@[n0 + v].name@);
                    assert(false);
                }
            }
        }
    }

    /// After a materialize pass, the rebuilt registry is consistent again:
    /// the exit facts of the materialize loop imply the full invariant.
    #[verifier::rlimit(60)]
    #[verifier::spinoff_prover]
    proof fn lemma_wf_after_materialize(self, orig: PropertyRegistry)
        requires
            orig.wf(),
            orig.props().len() + orig.pending_view().len() + 2 <= u64::MAX,
            self.pending_view().len() == 0,
            self.entries().len() == orig.entries().len() + orig.pending_view().len(),
            forall|k: int|
                0 <= k < orig.entries().len() ==> #[trigger] self.entries()[k]
                    == orig.entries()[k],
            forall|v: int|
                0 <= v < orig.pending_view().len() ==> {
                    &&& (#[trigger] self.entries()[orig.entries().len() + v]).name
                        == orig.pending_view()[v]
                    &&& self.entries()[orig.entries().len() + v].id == (orig.alloc_base()
                        + v) as u64
                },
            self.props().len() == orig.props().len() + orig.pending_view().len(),
            forall|k: int|
                0 <= k < orig.props().len() ==> #[trigger] self.props()[k] == orig.props()[k],
            forall|v: int|
                0 <= v < orig.pending_view().len() ==> {
                    &&& (#[trigger] self.props()[orig.props().len() + v]).id == (orig.alloc_base()
                        + v) as u64
                    &&& self.props()[orig.props().len() + v].name == orig.pending_view()[v]
                    &&& self.props()[orig.props().len() + v].parent == self.root_spec()
                },
            self.root_spec() == (if orig.root_spec() is Some {
                orig.root_spec()
            } else if orig.pending_view().len() > 0 {
                Some(orig.next_id_spec())
            } else {
                None::<u64>
            }),
            self.next_id_spec() == orig.alloc_base() + orig.pending_view().len(),
        ensures
            self.wf(),
    {
        let n0 = orig.entries().len() as int;
        let p0 = orig.props().len() as int;
        let total = orig.pending_view().len() as int;
        let base = orig.alloc_base();
        let oldp = orig.props();
        let newp = self.props();
        // table names stay unique: old names were unique, drained names were
        // unique and absent from the table
        assert forall|i: int, j: int|
            0 <= i < j < self.entries().len() implies self.entries()[i].name@
            != self.entries()[j].name@ by {
            if j < n0 {
                assert(self.entries()[i] == orig.entries()[i]);
                assert(self.entries()[j] == orig.entries()[j]);
            } else {
                let vj = j - n0;
                assert((#[trigger] self.entries()[n0 + vj]).name == orig.pending_view()[vj]);
                lemma_find_name_spec(orig.entries(), orig.pending_view()[vj]@, 0);
                if i < n0 {
                    assert(self.entries()[i] == orig.entries()[i]);
                } else {
                    let vi = i - n0;
                    assert((#[trigger] self.entries()[n0 + vi]).name == orig.pending_view()[vi]);
                }
            }
        }
        // every table entry denotes an entity carrying its name
        assert forall|i: int| 0 <= i < self.entries().len() implies {
            let k = find_prop(newp, (#[trigger] self.entries()[i]).id, 0);
            &&& k != -1
            &&& newp[k].name@ == self.entries()[i].name@
        } by {
            if i < n0 {
                assert(self.entries()[i] == orig.entries()[i]);
                let e = orig.entries()[i].id;
                let k0 = find_prop(oldp, e, 0);
                assert(k0 != -1 && oldp[k0].name@ == orig.entries()[i].name@);
                lemma_find_prop_spec(oldp, e, 0);
                lemma_find_prop_extend(oldp, newp, e);
                assert(newp[k0] == oldp[k0]);
            } else {
                let v = i - n0;
                assert((#[trigger] self.entries()[n0 + v]).id == (base + v) as u64);
                let e = (base + v) as u64;
                let j = p0 + v;
                assert((#[trigger] newp[p0 + v]).id == e);
                lemma_find_prop_spec(newp, e, 0);
                let r = find_prop(newp, e, 0);
                assert(r != -1);
                if r != j {
                    if r < p0 {
                        assert(newp[r] == oldp[r]);
                        assert(oldp[r].id < orig.next_id_spec());
                        assert(false);
                    } else {
                        let v2 = r - p0;
                        assert((#[trigger] newp[p0 + v2]).id == (base + v2) as u64);
                        assert(false);
                    }
                }
            }
        }
        // entity identities stay unique and below the allocation counter
        assert forall|k: int, l: int| 0 <= k < l < newp.len() implies newp[k].id != newp[l].id by {
            if l >= p0 {
                let vl = l - p0;
                assert((#[trigger] newp[p0 + vl]).id == (base + vl) as u64);
                if k >= p0 {
                    let vk = k - p0;
                    assert((#[trigger] newp[p0 + vk]).id == (base + vk) as u64);
                } else {
                    assert(newp[k] == oldp[k]);
                    assert(oldp[k].id < orig.next_id_spec());
                }
            } else {
                assert(newp[k] == oldp[k] && newp[l] == oldp[l]);
            }
        }
        assert forall|k: int| 0 <= k < newp.len() implies (#[trigger] newp[k].id)
            < self.next_id_spec() by {
            if k >= p0 {
                let vk = k - p0;
                assert((#[trigger] newp[p0 + vk]).id == (base + vk) as u64);
            } else {
                assert(newp[k] == oldp[k]);
                assert(oldp[k].id < orig.next_id_spec());
            }
        }
        // every recorded parent is the root
        assert forall|k: int|
            0 <= k < newp.len() && (#[trigger] newp[k].parent) is Some implies self.root_spec()
            == newp[k].parent by {
            if k < p0 {
                assert(newp[k] == oldp[k]);
                assert(orig.root_spec() == Some(oldp[k].parent->Some_0));
            } else {
                let vk = k - p0;
                assert((#[trigger] newp[p0 + vk]).parent == self.root_spec());
            }
        }
    }

    /// Second maintenance phase: detect structural changes. Every entity
    /// still marked fresh (created by the previous phase, or materialized
    /// directly) is linked into the name table if its name is not already
    /// present, parented under the root grouping entity (created lazily if
    /// needed), and unmarked. Then every accessor bound since the last pass
    /// is eagerly synchronized to the current value of its property, so a
    /// newly bound accessor never reads a stale value. An accessor bound to
    /// a name that does not resolve even after linking, or a fresh entity
    /// named like a pending name, is a consumer contract violation and is
    /// excluded by precondition.
    #[verifier::rlimit(100)]
    #[verifier::spinoff_prover]
    pub fn detect_change(&mut self)
        requires
            old(self).wf(),
            old(self).props().len() + 2 <= u64::MAX,
            forall|k: int|
                0 <= k < old(self).props().len() && (#[trigger] old(self).props()[k]).fresh
                    ==> find_str(old(self).pending_view(), old(self).props()[k].name@, 0) == -1,
            forall|a: int|
                0 <= a < old(self).accessors().len() && old(self).accessor_fresh(a) ==> find_name(
                    link_fresh(old(self).entries(), old(self).props(), 0),
                    (#[trigger] old(self).accessors()[a]).name@,
                    0,
                ) != -1,
        ensures
            final(self).wf(),
            final(self).entries() == link_fresh(old(self).entries(), old(self).props(), 0),
            final(self).pending_view() == old(self).pending_view(),
            final(self).root_spec() == (if old(self).root_spec() is Some {
                old(self).root_spec()
            } else if exists|k: int|
                0 <= k < old(self).props().len() && (#[trigger] old(self).props()[k]).fresh {
                Some(old(self).next_id_spec())
            } else {
                None::<u64>
            }),
            final(self).props().len() == old(self).props().len(),
            forall|k: int|
                0 <= k < old(self).props().len() ==> {
                    &&& (#[trigger] final(self).props()[k]).id == old(self).props()[k].id
                    &&& final(self).props()[k].name == old(self).props()[k].name
                    &&& final(self).props()[k].value == old(self).props()[k].value
                    &&& final(self).props()[k].fresh == false
                    &&& (old(self).props()[k].fresh ==> final(self).props()[k].parent == final(self).root_spec())
                    &&& (!old(self).props()[k].fresh ==> final(self).props()[k].parent == old(self).props()[k].parent)
                },
            final(self).accessors().len() == old(self).accessors().len(),
            forall|a: int|
                0 <= a < old(self).accessors().len() ==> {
                    &&& (#[trigger] final(self).accessors()[a]).name == old(self).accessors()[a].name
                    &&& final(self).accessor_fresh(a) == false
                    &&& (old(self).accessor_fresh(a) ==> final(self).accessors()[a].cache
                        == value_for(
                        final(self).entries(),
                        final(self).props(),
                        old(self).accessors()[a].name@,
                    ))
                    &&& (!old(self).accessor_fresh(a) ==> final(self).accessors()[a].cache == old(self).accessors()[a].cache)
                },
    {
        let ghost orig = *old(self);
        let ghost oe0 = orig.entries();
        let ghost op0 = orig.props();
        let ghost pend0 = orig.pending_view();
        let ghost rt = orig.root_spec();
        let ghost nx = orig.next_id_spec();
        let pn = self.props.len();
        let mut i: usize = 0;
        while i < pn
            invariant
                nx == op0.len() + (if rt is Some {
                    1int
                } else {
                    0int
                }),
                op0.len() + 2 <= u64::MAX,
                pn == op0.len(),
                forall|k: int|
                    0 <= k < op0.len() && (#[trigger] op0[k]).fresh ==> find_str(
                        pend0,
                        op0[k].name@,
                        0,
                    ) == -1,
                0 <= i <= pn,
                self.pending@ == pend0,
                self.slots@ == orig.slots@,
                // the fold over the remaining entities completes the link
                link_fresh(self.names@, op0, i as int) == link_fresh(oe0, op0, 0),
                oe0.len() <= self.names@.len(),
                forall|k: int| 0 <= k < oe0.len() ==> #[trigger] self.names@[k] == oe0[k],
                // entities keep their identity, name and value; processed
                // ones are unmarked and parented under the root
                self.props@.len() == pn,
                forall|k: int|
                    0 <= k < pn ==> {
                        &&& (#[trigger] self.props@[k]).id == op0[k].id
                        &&& self.props@[k].name == op0[k].name
                        &&& self.props@[k].value == op0[k].value
                    },
                forall|k: int| i <= k < pn ==> (#[trigger] self.props@[k]) == op0[k],
                forall|k: int|
                    0 <= k < i ==> {
                        &&& (#[trigger] self.props@[k]).fresh == false
                        &&& (op0[k].fresh ==> self.props@[k].parent == self.root)
                        &&& (!op0[k].fresh ==> self.props@[k].parent == op0[k].parent)
                    },
                self.root == (if rt is Some {
                    rt
                } else if exists|k: int| 0 <= k < i && (#[trigger] op0[k]).fresh {
                    Some(nx)
                } else {
                    None::<u64>
                }),
                self.next_id as int == nx + (if rt is None && (exists|k: int|
                    0 <= k < i && (#[trigger] op0[k]).fresh) {
                    1int
                } else {
                    0int
                }),
                // consistency pieces of the invariant, maintained stepwise
                forall|x: int, y: int|
                    0 <= x < y < self.names@.len() ==> self.names@[x].name@ != self.names@[y].name@,
                forall|x: int|
                    0 <= x < pend0.len() ==> find_name(self.names@, (#[trigger] pend0[x])@, 0)
                        == -1,
                forall|x: int|
                    0 <= x < self.names@.len() ==> {
                        let k = find_prop(self.props@, (#[trigger] self.names@[x]).id, 0);
                        &&& k != -1
                        &&& self.props@[k].name@ == self.names@[x].name@
                    },
                forall|x: int, y: int|
                    0 <= x < y < self.props@.len() ==> self.props@[x].id != self.props@[y].id,
                forall|x: int|
                    0 <= x < self.props@.len() ==> (#[trigger] self.props@[x].id) < self.next_id,
                (self.root matches Some(r) ==> r < self.next_id),
                forall|x: int|
                    0 <= x < self.props@.len() ==> ((#[trigger] self.props@[x].parent) matches Some(
                        p,
                    ) ==> self.root == Some(p)),
            decreases pn - i,
        {
            let ghost props_start = self.props@;
            let ghost names_start = self.names@;
            let fresh_here = self.props[i].fresh;
            if fresh_here {
                let root_id: u64 = match self.root {
                    Some(r) => r,
                    None => {
                        let r = self.next_id;
                        self.next_id = self.next_id + 1;
                        self.root = Some(r);
                        r
                    },
                };
                let ghost names_before = self.names@;
                let nm = self.props[i].name.clone();
                let linked = match self.find_entry(&nm) {
                    Some(_) => true,
                    None => false,
                };
                if !linked {
                    let id = self.props[i].id;
                    let ghost entry_pushed = PropertyNameEntry { name: nm, id };
                    self.names.push(PropertyNameEntry { name: nm, id });
                    proof {
                        broadcast use vstd::seq::axiom_seq_push_index_different;

                        lemma_find_name_spec(names_before, self.props@[i as int].name@, 0);
                        assert(self.names@ == names_before.push(entry_pushed));
                        assert forall|x: int, y: int|
                            0 <= x < y < self.names@.len() implies self.names@[x].name@
                            != self.names@[y].name@ by {
                            if y == names_before.len() as int {
                                assert(self.names@[x] == names_before[x]);
                            } else {
                                assert(self.names@[x] == names_before[x]);
                                assert(self.names@[y] == names_before[y]);
                            }
                        }
                        assert forall|x: int|
                            0 <= x < pend0.len() implies find_name(
                            self.names@,
                            (#[trigger] pend0[x])@,
                            0,
                        ) == -1 by {
                            lemma_find_name_spec(self.names@, pend0[x]@, 0);
                            let r = find_name(self.names@, pend0[x]@, 0);
                            if r != -1 {
                                if r < names_before.len() {
                                    assert(self.names@[r] == names_before[r]);
                                    lemma_find_name_spec(names_before, pend0[x]@, 0);
                                    assert(false);
                                } else {
                                    lemma_find_str_spec(pend0, self.props@[i as int].name@, 0);
                                    assert(false);
                                }
                            }
                        }
                    }
                }
                self.props[i].parent = Some(root_id);
                self.props[i].fresh = false;
                proof {
                    assert forall|x: int| 0 <= x < self.names@.len() implies {
                        let k = find_prop(self.props@, (#[trigger] self.names@[x]).id, 0);
                        &&& k != -1
                        &&& self.props@[k].name@ == self.names@[x].name@
                    } by {
                        assert(forall|y: int|
                            0 <= y < props_start.len() ==> (#[trigger] self.props@[y]).id
                                == props_start[y].id && self.props@[y].name
                                == props_start[y].name);
                        if x < names_start.len() {
                            assert(self.names@[x] == names_start[x]);
                            let e = names_start[x].id;
                            let k0 = find_prop(props_start, e, 0);
                            assert(k0 != -1 && props_start[k0].name@ == names_start[x].name@);
                            lemma_find_prop_spec(props_start, e, 0);
                            lemma_find_prop_extend(props_start, self.props@, e);
                        } else {
                            let e = self.names@[x].id;
                            assert(e == self.props@[i as int].id);
                            lemma_find_prop_spec(self.props@, e, 0);
                            let r = find_prop(self.props@, e, 0);
                            assert(r != -1);
                            if r != i {
                                assert(self.props@[r].id == self.props@[i as int].id);
                                assert(false);
                            }
                        }
                    }
                }
            } else {
                proof {
                    assert(self.props@[i as int] == op0[i as int]);
                }
            }
            i = i + 1;
            proof {
                assert(link_fresh(self.names@, op0, i as int) == link_fresh(oe0, op0, 0));
            }
        }
        proof {
            assert(link_fresh(self.names@, op0, pn as int) == self.names@);
        }
        let ghost linked_names = self.names@;
        let ghost props1 = self.props@;
        let ghost root1 = self.root;
        let ghost next1 = self.next_id;
        proof {
            assert forall|s2: int|
                0 <= s2 < self.slots@.len() && (#[trigger] orig.slots@[s2]).fresh implies find_name(
                linked_names,
                orig.slots@[s2].access.name@,
                0,
            ) != -1 by {
                assert(orig.accessors()[s2] == orig.slots@[s2].access);
                assert(orig.accessor_fresh(s2) == orig.slots@[s2].fresh);
            }
        }
        // accessor synchronization: eagerly pull the current value for every
        // accessor bound since the last pass
        let an = self.slots.len();
        let mut a: usize = 0;
        while a < an
            invariant
                an == self.slots@.len(),
                0 <= a <= an,
                self.names@ == linked_names,
                self.pending@ == pend0,
                self.props@ == props1,
                self.root == root1,
                self.next_id == next1,
                linked_names == link_fresh(oe0, op0, 0),
                forall|s: int| a <= s < an ==> #[trigger] self.slots@[s] == orig.slots@[s],
                forall|s: int|
                    0 <= s < a ==> {
                        &&& (#[trigger] self.slots@[s]).access.name == orig.slots@[s].access.name
                        &&& self.slots@[s].fresh == false
                        &&& (orig.slots@[s].fresh ==> self.slots@[s].access.cache == value_for(
                            linked_names,
                            props1,
                            orig.slots@[s].access.name@,
                        ))
                        &&& (!orig.slots@[s].fresh ==> self.slots@[s].access.cache
                            == orig.slots@[s].access.cache)
                    },
                forall|s: int|
                    0 <= s < an && (#[trigger] orig.slots@[s]).fresh ==> find_name(
                        linked_names,
                        orig.slots@[s].access.name@,
                        0,
                    ) != -1,
                forall|x: int|
                    0 <= x < linked_names.len() ==> {
                        let k = find_prop(props1, (#[trigger] linked_names[x]).id, 0);
                        &&& k != -1
                        &&& props1[k].name@ == linked_names[x].name@
                    },
            decreases an - a,
        {
            let is_fresh = self.slots[a].fresh;
            if is_fresh {
                let nm = self.slots[a].access.name.clone();
                match self.find_entry(&nm) {
                    Some(j) => {
                        proof {
                            lemma_find_name_spec(self.names@, nm@, 0);
                        }
                        let id = self.names[j].id;
                        match self.find_prop_entry(id) {
                            Some(k) => {
                                proof {
                                    lemma_find_prop_spec(self.props@, id, 0);
                                }
                                let v = self.props[k].value.dup();
                                self.slots[a].access.cache = v;
                                self.slots[a].fresh = false;
                            },
                            None => {
                                proof {
                                    assert(false);
                                }
                            },
                        }
                    },
                    None => {
                        proof {
                            assert(false);
                        }
                    },
                }
            } else {
                proof {
                    assert(self.slots@[a as int] == orig.slots@[a as int]);
                }
            }
            a = a + 1;
        }
    }

    /// Third maintenance phase: apply a tick's batch of update events. The
    /// batch is keyed by name, last write wins: only the most recently
    /// enqueued value for a name is applied. The resulting value lands on
    /// every property entity carrying the name and on every accessor bound
    /// to it, in the same pass, so canonical storage and caches agree at
    /// tick boundaries. Names no event targets are untouched.
    #[verifier::rlimit(60)]
    #[verifier::spinoff_prover]
    pub fn update_event_listener(&mut self, events: &Vec<PropertyUpdateEvent>)
        requires
            old(self).wf(),
        ensures
            final(self).wf(),
            final(self).entries() == old(self).entries(),
            final(self).pending_view() == old(self).pending_view(),
            final(self).root_spec() == old(self).root_spec(),
            final(self).next_id_spec() == old(self).next_id_spec(),
            final(self).props().len() == old(self).props().len(),
            forall|k: int|
                0 <= k < old(self).props().len() ==> {
                    &&& (#[trigger] final(self).props()[k]).id == old(self).props()[k].id
                    &&& final(self).props()[k].name == old(self).props()[k].name
                    &&& final(self).props()[k].parent == old(self).props()[k].parent
                    &&& final(self).props()[k].fresh == old(self).props()[k].fresh
                    &&& final(self).props()[k].value == (match effective_update(
                        events@,
                        old(self).props()[k].name@,
                    ) {
                        Option::Some(v) => v,
                        Option::None => old(self).props()[k].value,
                    })
                },
            final(self).accessors().len() == old(self).accessors().len(),
            forall|a: int|
                0 <= a < old(self).accessors().len() ==> {
                    &&& (#[trigger] final(self).accessors()[a]).name == old(self).accessors()[a].name
                    &&& final(self).accessor_fresh(a) == old(self).accessor_fresh(a)
                    &&& final(self).accessors()[a].cache == (match effective_update(
                        events@,
                        old(self).accessors()[a].name@,
                    ) {
                        Option::Some(v) => v,
                        Option::None => old(self).accessors()[a].cache,
                    })
                },
    {
        let ghost orig = *old(self);
        let ghost oe0 = orig.entries();
        let ghost op0 = orig.props();
        let ghost ev0 = events@;
        let pn = self.props.len();
        let mut i: usize = 0;
        while i < pn
            invariant
                pn == op0.len(),
                self.names@ == orig.entries(),
                self.pending@ == orig.pending_view(),
                self.slots@ == orig.slots@,
                self.root == orig.root_spec(),
                self.next_id == orig.next_id_spec(),
                0 <= i <= pn,
                ev0 == events@,
                self.props@.len() == pn,
                forall|k: int|
                    0 <= k < pn ==> {
                        &&& (#[trigger] self.props@[k]).id == op0[k].id
                        &&& self.props@[k].name == op0[k].name
                        &&& self.props@[k].parent == op0[k].parent
                        &&& self.props@[k].fresh == op0[k].fresh
                    },
                forall|k: int| i <= k < pn ==> (#[trigger] self.props@[k]).value == op0[k].value,
                forall|k: int|
                    0 <= k < i ==> (#[trigger] self.props@[k]).value == (match effective_update(
                        ev0,
                        op0[k].name@,
                    ) {
                        Option::Some(v) => v,
                        Option::None => op0[k].value,
                    }),
            decreases pn - i,
        {
            let nm = self.props[i].name.clone();
            match effective_of(events, &nm) {
                Some(v) => {
                    self.props[i].value = v;
                },
                None => {},
            }
            i = i + 1;
        }
        let ghost props1 = self.props@;
        let an = self.slots.len();
        let mut a: usize = 0;
        while a < an
            invariant
                an == orig.slots@.len(),
                self.names@ == orig.entries(),
                self.pending@ == orig.pending_view(),
                self.props@ == props1,
                self.root == orig.root_spec(),
                self.next_id == orig.next_id_spec(),
                0 <= a <= an,
                ev0 == events@,
                self.slots@.len() == an,
                forall|s: int| a <= s < an ==> #[trigger] self.slots@[s] == orig.slots@[s],
                forall|s: int|
                    0 <= s < a ==> {
                        &&& (#[trigger] self.slots@[s]).access.name == orig.slots@[s].access.name
                        &&& self.slots@[s].fresh == orig.slots@[s].fresh
                        &&& self.slots@[s].access.cache == (match effective_update(
                            ev0,
                            orig.slots@[s].access.name@,
                        ) {
                            Option::Some(v) => v,
                            Option::None => orig.slots@[s].access.cache,
                        })
                    },
            decreases an - a,
        {
            let nm = self.slots[a].access.name.clone();
            match effective_of(events, &nm) {
                Some(v) => {
                    self.slots[a].access.cache = v;
                },
                None => {},
            }
            a = a + 1;
        }
        proof {
            assert forall|x: int| 0 <= x < self.names@.len() implies {
                let k = find_prop(self.props@, (#[trigger] self.names@[x]).id, 0);
                &&& k != -1
                &&& self.props@[k].name@ == self.names@[x].name@
            } by {
                assert(old(self).entries()[x] == self.names@[x]);
                let e = self.names@[x].id;
                let k0 = find_prop(op0, e, 0);
                assert(k0 != -1 && op0[k0].name@ == oe0[x].name@);
                lemma_find_prop_spec(op0, e, 0);
                lemma_find_prop_extend(op0, self.props@, e);
                assert(self.props@[k0].name == op0[k0].name);
            }
            assert forall|k: int, l: int| 0 <= k < l < self.props@.len() implies self.props@[k].id
                != self.props@[l].id by {
                assert(self.props@[k].id == op0[k].id && self.props@[l].id == op0[l].id);
                assert(old(self).props()[k].id != old(self).props()[l].id);
            }
            assert forall|k: int| 0 <= k < self.props@.len() implies (#[trigger] self.props@[k].id)
                < self.next_id by {
                assert(self.props@[k].id == op0[k].id);
                assert(old(self).props()[k].id < old(self).next_id_spec());
            }
            assert forall|k: int|
                0 <= k < self.props@.len() && (#[trigger] self.props@[k].parent)
                    is Some implies self.root == self.props@[k].parent by {
                assert(self.props@[k].parent == op0[k].parent);
                assert(old(self).root_spec() == Some(old(self).props()[k].parent->Some_0));
            }
        }
    }

    /// Index of the entity with identity `id`, if one exists.
    fn find_prop_entry(&self, id: u64) -> (r: Option<usize>)
        ensures
            r is Some ==> r->Some_0 == find_prop(self.props(), id, 0),
            r is None ==> find_prop(self.props(), id, 0) == -1,
    {
        let n = self.props.len();
        let mut i: usize = 0;
        while i < n
            invariant
                n == self.props@.len(),
                0 <= i <= n,
                forall|k: int| 0 <= k < i ==> self.props@[k].id != id,
            decreases n - i,
        {
            if self.props[i].id == id {
                proof {
                    lemma_find_prop_spec(self.props@, id, 0);
                }
                return Some(i);
            }
            i = i + 1;
        }
        proof {
            lemma_find_prop_spec(self.props@, id, 0);
        }
        None
    }

    /// The accessor at index `i`.
    pub fn accessor(&self, i: usize) -> (a: &PropertyAccess)
        requires
            i < self.accessors().len(),
        ensures
            *a == self.accessors()[i as int],
    {
        &self.slots[i].access
    }

    /// Number of accessors bound so far.
    pub fn accessor_count(&self) -> (n: usize)
        ensures
            n == self.accessors().len(),
    {
        self.slots.len()
    }

    /// Number of property entities materialized so far.
    pub fn prop_count(&self) -> (n: usize)
        ensures
            n == self.props().len(),
    {
        self.props.len()
    }

    /// The root grouping entity, once a maintenance pass has created it.
    pub fn root_entity(&self) -> (r: Option<u64>)
        ensures
            r == self.root_spec(),
    {
        self.root
    }

    /// Current value of the property entity `id` denotes, if any.
    pub fn prop_value(&self, id: u64) -> (r: Option<PropertyValue>)
        ensures
            r == (match self.prop_of(id) {
                Option::Some(e) => Some(e.value),
                Option::None => None::<PropertyValue>,
            }),
    {
        let n = self.props.len();
        let mut i: usize = 0;
        while i < n
            invariant
                n == self.props@.len(),
                0 <= i <= n,
                forall|k: int| 0 <= k < i ==> self.props@[k].id != id,
            decreases n - i,
        {
            if self.props[i].id == id {
                proof {
                    lemma_find_prop_spec(self.props(), id, 0);
                }
                return Some(self.props[i].value.dup());
            }
            i = i + 1;
        }
        proof {
            lemma_find_prop_spec(self.props(), id, 0);
        }
        None
    }
}

} // verus!
