//! Discovered entries, their ordering, and the class and property descriptors
//! assembled from them.
use vstd::prelude::*;
use crate::text::{derive_name, derive_trimmed_name, derived_name, trimmed_name};
use crate::types::{map_xsd_type, mapped_types};
use crate::order::{compare, seq_lt, lemma_lt_asymmetric, lemma_lt_irreflexive, lemma_lt_total, lemma_lt_transitive};

verus! {

/// One resource found in the graph: its identifier, its comment (empty where
/// absent) and, for a property, its declared range.
pub struct Entry {
    pub id: String,
    pub comment: String,
    pub range: Option<String>,
}

pub struct EntryModel {
    pub id: Seq<char>,
    pub comment: Seq<char>,
    pub range: Option<Seq<char>>,
}

impl View for Entry {
    type V = EntryModel;

    open spec fn view(&self) -> EntryModel {
        EntryModel {
            id: self.id@,
            comment: self.comment@,
            range: match self.range {
                Some(r) => Some(r@),
                None => None,
            },
        }
    }
}

impl Entry {
    /// A copy with the same contents.
    pub fn duplicate(&self) -> (r: Entry)
        ensures
            r@ == self@,
    {
        let range = match &self.range {
            Some(r) => Some(r.clone()),
            None => None,
        };
        Entry { id: self.id.clone(), comment: self.comment.clone(), range }
    }
}

pub open spec fn entries_view(v: Seq<Entry>) -> Seq<EntryModel> {
    v.map_values(|e: Entry| e@)
}

/// Strictly increasing by identifier: sorted, and no identifier twice.
pub open spec fn sorted_unique(s: Seq<EntryModel>) -> bool {
    forall|i: int, j: int| 0 <= i < j < s.len() ==> seq_lt(#[trigger] s[i].id, #[trigger] s[j].id)
}

/// Some entry of `s` has identifier `id`.
pub open spec fn has_id(s: Seq<EntryModel>, id: Seq<char>) -> bool {
    exists|j: int| 0 <= j < s.len() && s[j].id == id
}

/// Among rows of one identifier, `a` comes before `b`: by comment, then by
/// range, a missing range first.
pub open spec fn row_lt(a: EntryModel, b: EntryModel) -> bool {
    seq_lt(a.comment, b.comment) || (a.comment == b.comment && match (a.range, b.range) {
        (None, Some(_)) => true,
        (Some(x), Some(y)) => seq_lt(x, y),
        _ => false,
    })
}

proof fn lemma_row_lt_irreflexive(a: EntryModel)
    ensures
        !row_lt(a, a),
{
    lemma_lt_irreflexive(a.comment);
    if let Some(x) = a.range {
        lemma_lt_irreflexive(x);
    }
}

proof fn lemma_row_lt_transitive(a: EntryModel, b: EntryModel, c: EntryModel)
    requires
        row_lt(a, b),
        row_lt(b, c),
    ensures
        row_lt(a, c),
{
    if seq_lt(a.comment, b.comment) && seq_lt(b.comment, c.comment) {
        lemma_lt_transitive(a.comment, b.comment, c.comment);
    }
    if a.range is Some && b.range is Some && c.range is Some {
        if seq_lt(a.range->Some_0, b.range->Some_0) && seq_lt(b.range->Some_0, c.range->Some_0) {
            lemma_lt_transitive(a.range->Some_0, b.range->Some_0, c.range->Some_0);
        }
    }
}

proof fn lemma_row_lt_total(a: EntryModel, b: EntryModel)
    requires
        a.id == b.id,
    ensures
        a == b || row_lt(a, b) || row_lt(b, a),
{
    lemma_lt_total(a.comment, b.comment);
    if a.range is Some && b.range is Some {
        lemma_lt_total(a.range->Some_0, b.range->Some_0);
    }
}

/// `x` is a row of `rows`, and no row with its identifier comes before it.
pub open spec fn is_least_row(rows: Seq<EntryModel>, x: EntryModel) -> bool {
    &&& rows.contains(x)
    &&& forall|y: EntryModel| #[trigger] rows.contains(y) && y.id == x.id ==> !row_lt(y, x)
}

/// `out` is what discovery makes of `rows`: one entry per identifier, the
/// least of the rows that carry it, ordered by identifier.
pub open spec fn is_discovery_of(out: Seq<EntryModel>, rows: Seq<EntryModel>) -> bool {
    &&& sorted_unique(out)
    &&& forall|i: int| 0 <= i < rows.len() ==> has_id(out, #[trigger] rows[i].id)
    &&& forall|j: int| 0 <= j < out.len() ==> is_least_row(rows, #[trigger] out[j])
}

/// Of two rows with one identifier, the one that discovery keeps.
pub open spec fn least(a: EntryModel, b: EntryModel) -> EntryModel {
    if row_lt(b, a) {
        b
    } else {
        a
    }
}

/// Whether `a` comes before `b` among rows of one identifier.
pub fn row_less(a: &Entry, b: &Entry) -> (r: bool)
    ensures
        r == row_lt(a@, b@),
{
    let c = compare(a.comment.as_str(), b.comment.as_str());
    if c != 0 {
        return c < 0;
    }
    match (&a.range, &b.range) {
        (None, Some(_)) => true,
        (Some(x), Some(y)) => compare(x.as_str(), y.as_str()) < 0,
        _ => false,
    }
}

/// Inserts `e` at its place by identifier; where an entry with the same
/// identifier is there, keeps the lesser of the two.
pub fn insert_entry(v: &mut Vec<Entry>, e: Entry)
    requires
        sorted_unique(entries_view(old(v)@)),
    ensures
        sorted_unique(entries_view(final(v)@)),
        has_id(entries_view(old(v)@), e.id@) ==> exists|p: int|
            0 <= p < old(v)@.len() && entries_view(old(v)@)[p].id == e.id@ && entries_view(final(v)@)
                == entries_view(old(v)@).update(p, least(entries_view(old(v)@)[p], e@)),
        !has_id(entries_view(old(v)@), e.id@) ==> exists|p: int|
            0 <= p <= old(v)@.len() && entries_view(final(v)@) == entries_view(old(v)@).insert(p, e@),
{
    let ghost ov = entries_view(v@);
    let n = v.len();
    let mut p: usize = 0;
    while p < n && compare(v[p].id.as_str(), e.id.as_str()) < 0
        invariant
            n == v@.len(),
            p <= n,
            v@ == old(v)@,
            ov == entries_view(v@),
            forall|k: int| 0 <= k < p ==> seq_lt(ov[k].id, e.id@),
        decreases n - p,
    {
        p = p + 1;
    }
    if p < n && compare(v[p].id.as_str(), e.id.as_str()) == 0 {
        assert(ov[p as int] == v@[p as int]@);
        let ghost ev = e@;
        let ghost keep = least(v@[p as int]@, e@);
        if row_less(&e, &v[p]) {
            v.set(p, e);
        }
        proof {
            let nv = entries_view(v@);
            assert(nv =~= ov.update(p as int, keep));
            assert forall|k: int| 0 <= k < nv.len() implies nv[k].id == ov[k].id by {}
            assert forall|i: int, j: int| 0 <= i < j < nv.len() implies seq_lt(#[trigger] nv[i].id, #[trigger] nv[j].id) by {
                assert(seq_lt(ov[i].id, ov[j].id));
            }
        }
        return;
    }
    proof {
        assert forall|j: int| 0 <= j < n implies v@[j].id@ != e.id@ by {
            assert(ov[j] == v@[j]@);
            if j < p {
                lemma_lt_irreflexive(e.id@);
            } else {
                lemma_lt_total(ov[p as int].id, e.id@);
                if j > p {
                    lemma_lt_transitive(e.id@, ov[p as int].id, ov[j].id);
                }
                lemma_lt_irreflexive(e.id@);
            }
        }
        if p < n {
            lemma_lt_total(ov[p as int].id, e.id@);
        }
    }
    let ghost ev = e@;
    v.insert(p, e);
    proof {
        let nv = entries_view(v@);
        assert(nv =~= ov.insert(p as int, ev));
        assert forall|i: int, j: int| 0 <= i < j < nv.len() implies seq_lt(#[trigger] nv[i].id, #[trigger] nv[j].id) by {
            if j < p {
            } else if j == p {
            } else if i < p {
                if j > p + 1 {
                    lemma_lt_transitive(nv[i].id, ev.id, ov[p as int].id);
                    lemma_lt_transitive(nv[i].id, ov[p as int].id, nv[j].id);
                } else {
                    lemma_lt_transitive(nv[i].id, ev.id, nv[j].id);
                }
            } else if i == p {
                if j > p + 1 {
                    lemma_lt_transitive(ev.id, ov[p as int].id, nv[j].id);
                }
            } else {
            }
        }
    }
}

proof fn lemma_sorted_ids_distinct(s: Seq<EntryModel>, i: int, j: int)
    requires
        sorted_unique(s),
        0 <= i < s.len(),
        0 <= j < s.len(),
        i != j,
    ensures
        s[i].id != s[j].id,
{
    if i < j {
        assert(seq_lt(s[i].id, s[j].id));
    } else {
        assert(seq_lt(s[j].id, s[i].id));
    }
    lemma_lt_irreflexive(s[i].id);
}

/// Keeps one entry per identifier, the least of the rows that carry it, and
/// orders the result by identifier.
pub fn discover(rows: &Vec<Entry>) -> (r: Vec<Entry>)
    ensures
        is_discovery_of(entries_view(r@), entries_view(rows@)),
{
    let mut out: Vec<Entry> = Vec::new();
    let ghost rv = entries_view(rows@);
    let mut i: usize = 0;
    proof {
        assert(entries_view(out@) =~= Seq::<EntryModel>::empty());
    }
    while i < rows.len()
        invariant
            i <= rows@.len(),
            rv == entries_view(rows@),
            is_discovery_of(entries_view(out@), rv.subrange(0, i as int)),
        decreases rows@.len() - i,
    {
        let ghost before = entries_view(out@);
        let ghost pre = rv.subrange(0, i as int);
        let ghost next = rv.subrange(0, i + 1);
        let e = rows[i].duplicate();
        let ghost ev = e@;
        assert(ev == rv[i as int]);
        let ghost found = has_id(before, ev.id);
        insert_entry(&mut out, e);
        proof {
            let after = entries_view(out@);
            assert(next =~= pre.push(ev));
            assert(next.contains(ev)) by {
                assert(next[i as int] == ev);
            }
            assert forall|y: EntryModel| pre.contains(y) implies next.contains(y) by {
                let k = choose|k: int| 0 <= k < pre.len() && pre[k] == y;
                assert(next[k] == y);
            }
            assert forall|y: EntryModel| next.contains(y) implies pre.contains(y) || y == ev by {
                let k = choose|k: int| 0 <= k < next.len() && next[k] == y;
                if k < i {
                    assert(pre[k] == y);
                }
            }
            if found {
                let q = choose|q: int| 0 <= q < before.len() && before[q].id == ev.id && after == before.update(q, least(before[q], ev));
                assert forall|k: int| 0 <= k < next.len() implies has_id(after, #[trigger] next[k].id) by {
                    if k < i {
                        assert(next[k] == pre[k]);
                        let j = choose|j: int| 0 <= j < before.len() && before[j].id == pre[k].id;
                        assert(after[j].id == before[j].id);
                    } else {
                        assert(after[q].id == ev.id);
                    }
                }
                assert forall|j: int| 0 <= j < after.len() implies is_least_row(next, #[trigger] after[j]) by {
                    assert(is_least_row(pre, before[j]));
                    if j == q {
                        let b = before[q];
                        assert forall|y: EntryModel| #[trigger] next.contains(y) && y.id == after[j].id implies !row_lt(y, after[j]) by {
                            if y == ev {
                                if row_lt(ev, b) {
                                    lemma_row_lt_irreflexive(ev);
                                }
                            } else {
                                assert(pre.contains(y));
                                assert(!row_lt(y, b));
                                if row_lt(ev, b) && row_lt(y, ev) {
                                    lemma_row_lt_transitive(y, ev, b);
                                }
                            }
                        }
                    } else {
                        assert(after[j] == before[j]);
                        lemma_sorted_ids_distinct(before, j, q);
                        assert forall|y: EntryModel| #[trigger] next.contains(y) && y.id == after[j].id implies !row_lt(y, after[j]) by {
                            if y != ev {
                                assert(pre.contains(y));
                            }
                        }
                    }
                }
            } else {
                let q = choose|q: int| 0 <= q <= before.len() && after == before.insert(q, ev);
                assert forall|k: int| 0 <= k < next.len() implies has_id(after, #[trigger] next[k].id) by {
                    if k < i {
                        assert(next[k] == pre[k]);
                        let j = choose|j: int| 0 <= j < before.len() && before[j].id == pre[k].id;
                        if j < q {
                            assert(after[j] == before[j]);
                        } else {
                            assert(after[j + 1] == before[j]);
                        }
                    } else {
                        assert(after[q] == ev);
                    }
                }
                assert forall|j: int| 0 <= j < after.len() implies is_least_row(next, #[trigger] after[j]) by {
                    if j == q {
                        assert(after[j] == ev);
                        assert forall|y: EntryModel| #[trigger] next.contains(y) && y.id == ev.id implies !row_lt(y, ev) by {
                            if y == ev {
                                lemma_row_lt_irreflexive(ev);
                            } else {
                                let k = choose|k: int| 0 <= k < pre.len() && pre[k] == y;
                                assert(has_id(before, pre[k].id));
                            }
                        }
                    } else {
                        let prev = if j < q { j } else { j - 1 };
                        assert(after[j] == before[prev]);
                        assert(is_least_row(pre, before[prev]));
                        assert forall|y: EntryModel| #[trigger] next.contains(y) && y.id == after[j].id implies !row_lt(y, after[j]) by {
                            if y != ev {
                                assert(pre.contains(y));
                            } else {
                                assert(has_id(before, ev.id)) by {
                                    assert(before[prev].id == ev.id);
                                }
                            }
                        }
                    }
                }
            }
        }
        i = i + 1;
    }
    proof {
        assert(rv.subrange(0, rows@.len() as int) =~= rv);
    }
    out
}

proof fn lemma_sorted_same_elements(a: Seq<EntryModel>, b: Seq<EntryModel>)
    requires
        sorted_unique(a),
        sorted_unique(b),
        forall|x: EntryModel| a.contains(x) <==> b.contains(x),
    ensures
        a == b,
    decreases a.len(),
{
    if a.len() == 0 {
        if b.len() > 0 {
            assert(b.contains(b[0]));
        }
        assert(a =~= b);
    } else {
        assert(a.contains(a[0]));
        let j = choose|j: int| 0 <= j < b.len() && b[j] == a[0];
        assert(b.contains(b[0]));
        let i = choose|i: int| 0 <= i < a.len() && a[i] == b[0];
        if j > 0 {
            if i > 0 {
                lemma_lt_asymmetric(a[0].id, a[i].id);
            } else {
                lemma_lt_irreflexive(a[0].id);
            }
        }
        assert(b[0] == a[0]);
        let ta = a.drop_first();
        let tb = b.drop_first();
        assert forall|x: EntryModel| ta.contains(x) <==> tb.contains(x) by {
            if ta.contains(x) {
                let k = choose|k: int| 0 <= k < ta.len() && ta[k] == x;
                assert(a[k + 1] == x);
                assert(a.contains(x));
                let m = choose|m: int| 0 <= m < b.len() && b[m] == x;
                if m == 0 {
                    lemma_lt_irreflexive(x.id);
                }
                assert(tb[m - 1] == x);
            }
            if tb.contains(x) {
                let k = choose|k: int| 0 <= k < tb.len() && tb[k] == x;
                assert(b[k + 1] == x);
                assert(b.contains(x));
                let m = choose|m: int| 0 <= m < a.len() && a[m] == x;
                if m == 0 {
                    lemma_lt_irreflexive(x.id);
                }
                assert(ta[m - 1] == x);
            }
        }
        lemma_sorted_same_elements(ta, tb);
        assert(a =~= seq![a[0]] + ta);
        assert(b =~= seq![b[0]] + tb);
    }
}

/// The entries of a discovery are exactly the least rows of each identifier.
proof fn lemma_discovery_member(out: Seq<EntryModel>, rows: Seq<EntryModel>, x: EntryModel)
    requires
        is_discovery_of(out, rows),
    ensures
        out.contains(x) <==> is_least_row(rows, x),
{
    if out.contains(x) {
        let j = choose|j: int| 0 <= j < out.len() && out[j] == x;
        assert(is_least_row(rows, out[j]));
    }
    if is_least_row(rows, x) {
        let i = choose|i: int| 0 <= i < rows.len() && rows[i] == x;
        assert(has_id(out, rows[i].id));
        let j = choose|j: int| 0 <= j < out.len() && out[j].id == rows[i].id;
        let y = out[j];
        assert(is_least_row(rows, y));
        lemma_row_lt_total(x, y);
        assert(rows.contains(x));
        assert(out[j] == x);
    }
}

/// Discovery is a function of its rows: two discoveries of the same rows are
/// identical, in order and content.
pub proof fn lemma_discovery_deterministic(rows: Seq<EntryModel>, o1: Seq<EntryModel>, o2: Seq<EntryModel>)
    requires
        is_discovery_of(o1, rows),
        is_discovery_of(o2, rows),
    ensures
        o1 == o2,
{
    assert forall|x: EntryModel| o1.contains(x) <==> o2.contains(x) by {
        lemma_discovery_member(o1, rows, x);
        lemma_discovery_member(o2, rows, x);
    }
    lemma_sorted_same_elements(o1, o2);
}

/// Discovering again what discovery produced changes nothing.
pub proof fn lemma_discovery_idempotent(rows: Seq<EntryModel>, once: Seq<EntryModel>, twice: Seq<EntryModel>)
    requires
        is_discovery_of(once, rows),
        is_discovery_of(twice, once),
    ensures
        twice == once,
{
    assert(is_discovery_of(once, once)) by {
        assert forall|i: int| 0 <= i < once.len() implies has_id(once, #[trigger] once[i].id) by {
            assert(once[i].id == once[i].id);
        }
        assert forall|j: int| 0 <= j < once.len() implies is_least_row(once, #[trigger] once[j]) by {
            assert(once.contains(once[j]));
            assert forall|y: EntryModel| #[trigger] once.contains(y) && y.id == once[j].id implies !row_lt(y, once[j]) by {
                let k = choose|k: int| 0 <= k < once.len() && once[k] == y;
                if k != j {
                    lemma_sorted_ids_distinct(once, k, j);
                }
                lemma_row_lt_irreflexive(y);
            }
        }
    }
    lemma_discovery_deterministic(once, twice, once);
}

/// The order in which rows arrive does not matter: rows that are a
/// rearrangement of one another are discovered as the same sequence, also
/// where an identifier repeats.
pub proof fn lemma_discovery_order_independent(
    r1: Seq<EntryModel>,
    r2: Seq<EntryModel>,
    o1: Seq<EntryModel>,
    o2: Seq<EntryModel>,
)
    requires
        r1.to_multiset() == r2.to_multiset(),
        is_discovery_of(o1, r1),
        is_discovery_of(o2, r2),
    ensures
        o1 == o2,
{
    broadcast use vstd::seq_lib::group_to_multiset_ensures;

    assert forall|y: EntryModel| r1.contains(y) <==> r2.contains(y) by {
        assert(r1.to_multiset().count(y) == r2.to_multiset().count(y));
        assert(r1.contains(y) <==> r1.to_multiset().count(y) > 0);
        assert(r2.contains(y) <==> r2.to_multiset().count(y) > 0);
    }
    assert forall|x: EntryModel| o1.contains(x) <==> o2.contains(x) by {
        lemma_discovery_member(o1, r1, x);
        lemma_discovery_member(o2, r2, x);
        assert(is_least_row(r1, x) == is_least_row(r2, x));
    }
    lemma_sorted_same_elements(o1, o2);
}

/// One field of a generated type.
pub struct PropertyDescriptor {
    pub name: String,
    pub comment: String,
    pub rust_type: String,
    pub python_type: String,
    pub typescript_type: String,
    pub optional: bool,
}

pub struct PropertyModel {
    pub name: Seq<char>,
    pub comment: Seq<char>,
    pub types: (Seq<char>, Seq<char>, Seq<char>),
    pub optional: bool,
}

impl View for PropertyDescriptor {
    type V = PropertyModel;

    open spec fn view(&self) -> PropertyModel {
        PropertyModel {
            name: self.name@,
            comment: self.comment@,
            types: (self.rust_type@, self.python_type@, self.typescript_type@),
            optional: self.optional,
        }
    }
}

/// One generated type.
pub struct ClassDescriptor {
    pub name: String,
    pub comment: String,
    pub properties: Vec<PropertyDescriptor>,
}

pub struct ClassModel {
    pub name: Seq<char>,
    pub comment: Seq<char>,
    pub properties: Seq<PropertyModel>,
}

pub open spec fn properties_view(v: Seq<PropertyDescriptor>) -> Seq<PropertyModel> {
    v.map_values(|p: PropertyDescriptor| p@)
}

impl View for ClassDescriptor {
    type V = ClassModel;

    open spec fn view(&self) -> ClassModel {
        ClassModel { name: self.name@, comment: self.comment@, properties: properties_view(self.properties@) }
    }
}

pub open spec fn classes_view(v: Seq<ClassDescriptor>) -> Seq<ClassModel> {
    v.map_values(|c: ClassDescriptor| c@)
}

/// The range assumed for a property that declares none.
pub open spec fn default_range() -> Seq<char> {
    "xsd:string"@
}

/// The range that a property entry resolves to.
pub open spec fn effective_range(e: EntryModel) -> Seq<char> {
    match e.range {
        Some(r) => r,
        None => default_range(),
    }
}

/// The field that a property entry becomes.
pub open spec fn property_of(e: EntryModel) -> PropertyModel {
    PropertyModel {
        name: trimmed_name(e.id, "unknown"@),
        comment: e.comment,
        types: mapped_types(effective_range(e)),
        optional: false,
    }
}

/// The type that a class entry becomes, with the given fields.
pub open spec fn class_of(e: EntryModel, properties: Seq<PropertyModel>) -> ClassModel {
    ClassModel { name: derived_name(e.id, "Unknown"@), comment: e.comment, properties }
}

/// Builds the field for a property entry: its short name, its comment and
/// the type names of its range (the string types where it declares none).
pub fn property_descriptor(e: &Entry) -> (r: PropertyDescriptor)
    ensures
        r@ == property_of(e@),
{
    let name = derive_trimmed_name(e.id.as_str(), "unknown");
    let (rust_type, python_type, typescript_type) = match &e.range {
        Some(range) => map_xsd_type(range.as_str()),
        None => map_xsd_type("xsd:string"),
    };
    PropertyDescriptor { name, comment: e.comment.clone(), rust_type, python_type, typescript_type, optional: false }
}

/// Builds the fields of a class from its property entries, in their order.
pub fn property_descriptors(entries: &Vec<Entry>) -> (r: Vec<PropertyDescriptor>)
    ensures
        properties_view(r@) == entries_view(entries@).map_values(|e: EntryModel| property_of(e)),
{
    let mut out: Vec<PropertyDescriptor> = Vec::new();
    let mut i: usize = 0;
    while i < entries.len()
        invariant
            i <= entries@.len(),
            out@.len() == i,
            forall|k: int| 0 <= k < i ==> out@[k]@ == property_of(#[trigger] entries@[k]@),
        decreases entries@.len() - i,
    {
        let p = property_descriptor(&entries[i]);
        out.push(p);
        i = i + 1;
    }
    proof {
        assert(properties_view(out@) =~= entries_view(entries@).map_values(|e: EntryModel| property_of(e)));
    }
    out
}

/// Builds the type for a class entry with the given fields.
pub fn class_descriptor(e: &Entry, properties: Vec<PropertyDescriptor>) -> (r: ClassDescriptor)
    ensures
        r@ == class_of(e@, properties_view(properties@)),
{
    ClassDescriptor { name: derive_name(e.id.as_str(), "Unknown"), comment: e.comment.clone(), properties }
}

/// A property that declares no range has the string types in every target
/// language.
pub proof fn lemma_no_range_is_string(e: EntryModel)
    requires
        e.range is None,
    ensures
        property_of(e).types == crate::types::string_types(),
{
    reveal_strlit("xsd:string");
    reveal_strlit("string");
    let r = default_range();
    assert(r.subrange(4, 10) =~= "string"@);
    assert(crate::text::occurs_at(r, "string"@, 4));
}

} // verus!
