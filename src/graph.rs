//! Loading ontology documents into a graph and querying it for classes and
//! their properties.
use vstd::prelude::*;
use vstd::string::StringExecFns;
use oxigraph::io::RdfFormat;
use oxigraph::model::Term;
use oxigraph::sparql::{EvaluationError, QueryResults, QuerySolution};
use oxigraph::store::{LoaderError, Store};
use crate::text::{has_any, is_iri_term, iri_term_ok, last_of, rfind_either, starts_with, str_starts_with};
use crate::schema::{
    class_descriptor, class_of, classes_view, discover, entries_view, is_discovery_of, property_descriptors,
    property_of, sorted_unique, ClassDescriptor, ClassModel, Entry, EntryModel, PropertyDescriptor,
    PropertyModel, properties_view,
};

verus! {

#[verifier::external_type_specification]
#[verifier::external_body]
pub struct ExStore(Store);

#[verifier::external_type_specification]
#[verifier::external_body]
pub struct ExQueryResults(QueryResults);

#[verifier::external_type_specification]
#[verifier::external_body]
pub struct ExQuerySolution(QuerySolution);

#[verifier::external_type_specification]
#[verifier::external_body]
pub struct ExEvaluationError(EvaluationError);

#[verifier::external_type_specification]
#[verifier::external_body]
pub struct ExLoaderError(LoaderError);

/// A term bound in a query solution, as plain text: an IRI, a blank node
/// identifier, a literal's lexical value, or a quoted triple's serialization.
pub enum RdfTerm {
    Iri(String),
    Blank(String),
    Literal(String),
    Triple(String),
}

/// The text of a term.
pub open spec fn term_text(t: RdfTerm) -> Seq<char> {
    match t {
        RdfTerm::Iri(s) => s@,
        RdfTerm::Blank(s) => s@,
        RdfTerm::Literal(s) => s@,
        RdfTerm::Triple(s) => s@,
    }
}

/// The text of an optional term, empty where it is absent.
pub open spec fn text_or_empty(t: Option<RdfTerm>) -> Seq<char> {
    match t {
        Some(t) => term_text(t),
        None => Seq::empty(),
    }
}

fn text_of(t: Option<RdfTerm>) -> (r: String)
    ensures
        r@ == text_or_empty(t),
{
    match t {
        Some(RdfTerm::Iri(s)) => s,
        Some(RdfTerm::Blank(s)) => s,
        Some(RdfTerm::Literal(s)) => s,
        Some(RdfTerm::Triple(s)) => s,
        None => String::new(),
    }
}

/// The RDF namespace.
pub const RDF_NAMESPACE: &'static str = "http://www.w3.org/1999/02/22-rdf-syntax-ns#";

/// The RDFS namespace.
pub const RDFS_NAMESPACE: &'static str = "http://www.w3.org/2000/01/rdf-schema#";

/// The OWL namespace.
pub const OWL_NAMESPACE: &'static str = "http://www.w3.org/2002/07/owl#";

/// Identifiers under the built-in RDF, RDFS and OWL vocabularies.
pub open spec fn is_reserved(id: Seq<char>) -> bool {
    starts_with(id, RDF_NAMESPACE@) || starts_with(id, RDFS_NAMESPACE@) || starts_with(id, OWL_NAMESPACE@)
}

/// Whether an identifier lies in the built-in RDF, RDFS or OWL vocabulary.
pub fn is_reserved_iri(id: &str) -> (r: bool)
    ensures
        r == is_reserved(id@),
{
    str_starts_with(id, RDF_NAMESPACE) || str_starts_with(id, RDFS_NAMESPACE) || str_starts_with(id, OWL_NAMESPACE)
}

impl RdfTerm {
    /// A copy of the term.
    pub fn duplicate(&self) -> (r: RdfTerm)
        ensures
            r == *self,
    {
        match self {
            RdfTerm::Iri(s) => RdfTerm::Iri(s.clone()),
            RdfTerm::Blank(s) => RdfTerm::Blank(s.clone()),
            RdfTerm::Literal(s) => RdfTerm::Literal(s.clone()),
            RdfTerm::Triple(s) => RdfTerm::Triple(s.clone()),
        }
    }
}

fn duplicate_term(t: &Option<RdfTerm>) -> (r: Option<RdfTerm>)
    ensures
        r == *t,
{
    match t {
        Some(x) => Some(x.duplicate()),
        None => None,
    }
}

/// The class entry for one solution of the class query, if it yields one.
pub open spec fn class_entry_of(class: Option<RdfTerm>, comment: Option<RdfTerm>) -> Option<EntryModel> {
    match class {
        Some(RdfTerm::Iri(iri)) => if is_reserved(iri@) {
            None
        } else {
            Some(EntryModel { id: iri@, comment: text_or_empty(comment), range: None })
        },
        _ => None,
    }
}

/// Turns one solution of the class query into an entry: only named
/// resources outside the reserved vocabulary yield one.
pub fn class_entry(class: Option<RdfTerm>, comment: Option<RdfTerm>) -> (r: Option<Entry>)
    ensures
        r matches Some(e) ==> class_entry_of(class, comment) == Some(e@),
        r is None ==> class_entry_of(class, comment) is None,
{
    match class {
        Some(RdfTerm::Iri(iri)) => {
            if is_reserved_iri(iri.as_str()) {
                None
            } else {
                Some(Entry { id: iri, comment: text_of(comment), range: None })
            }
        },
        _ => None,
    }
}

/// The property entry for one solution of the property query.
pub open spec fn property_entry_of(
    property: Option<RdfTerm>,
    comment: Option<RdfTerm>,
    range: Option<RdfTerm>,
) -> Option<EntryModel> {
    match property {
        Some(p) => Some(
            EntryModel {
                id: term_text(p),
                comment: text_or_empty(comment),
                range: match range {
                    Some(t) => Some(term_text(t)),
                    None => None,
                },
            },
        ),
        None => None,
    }
}

/// Turns one solution of the property query into an entry.
pub fn property_entry(property: Option<RdfTerm>, comment: Option<RdfTerm>, range: Option<RdfTerm>) -> (r: Option<Entry>)
    ensures
        r matches Some(e) ==> property_entry_of(property, comment, range) == Some(e@),
        r is None ==> property_entry_of(property, comment, range) is None,
{
    match property {
        Some(p) => {
            let range = match range {
                Some(t) => Some(text_of(Some(t))),
                None => None,
            };
            Some(Entry { id: text_of(Some(p)), comment: text_of(comment), range })
        },
        None => None,
    }
}

/// A file that the loader reads: its name has the extension `ttl`.
pub open spec fn is_ontology_file(name: Seq<char>) -> bool {
    has_any(name, '.', '.') && last_of(name, '.', '.') > 0
        && name.subrange(last_of(name, '.', '.') + 1, name.len() as int) == "ttl"@
}

/// Whether the loader reads a file of this name.
pub fn is_ontology_file_name(name: &str) -> (r: bool)
    ensures
        r == is_ontology_file(name@),
{
    match rfind_either(name, '.', '.') {
        Some(d) => {
            if d > 0 {
                let n = name.unicode_len();
                let ext = name.substring_char(d + 1, n);
                crate::order::compare(ext, "ttl") == 0
            } else {
                false
            }
        },
        None => false,
    }
}

/// Why a run stops.
pub enum CompileError {
    /// A document did not parse as Turtle; holds its path.
    Load(String),
    /// A query failed to parse or to run against the graph.
    Query,
}

/// Relies on oxigraph's `Store::new`: an in-memory store, which (built
/// without the on-disk backend) is always created.
#[verifier::external_body]
fn new_store() -> Store {
    Store::new().expect("in-memory store")
}

/// Whether a text parses as a Turtle document.
pub uninterp spec fn turtle_ok(data: Seq<char>) -> bool;

/// Relies on oxigraph's `Store::load_from_reader`: parses the whole of `data`
/// as Turtle before inserting anything, so it fails exactly on a malformed
/// document; the in-memory insert itself cannot fail.
#[verifier::external_body]
fn load_turtle(store: &Store, data: &str) -> (r: Result<(), LoaderError>)
    ensures
        r is Ok <==> turtle_ok(data@),
{
    store.load_from_reader(RdfFormat::Turtle, data.as_bytes())
}

/// Relies on oxigraph's `Store::query`: parses and evaluates a SPARQL query.
#[verifier::external_body]
fn run_query(store: &Store, query: &str) -> Result<QueryResults, EvaluationError> {
    store.query(query)
}

/// Relies on oxigraph's `QuerySolutionIter` as an iterator: the solutions of
/// a SELECT query, or the first error met; no solutions for other results.
#[verifier::external_body]
fn solutions(results: QueryResults) -> Result<Vec<QuerySolution>, EvaluationError> {
    match results {
        QueryResults::Solutions(iter) => iter.collect(),
        QueryResults::Boolean(_) => Ok(Vec::new()),
        QueryResults::Graph(_) => Ok(Vec::new()),
    }
}

/// Relies on oxigraph's `QuerySolution::get`: the term bound to a variable,
/// converted to text.
#[verifier::external_body]
fn binding(solution: &QuerySolution, variable: &str) -> Option<RdfTerm> {
    match solution.get(variable) {
        Some(Term::NamedNode(n)) => Some(RdfTerm::Iri(n.as_str().to_string())),
        Some(Term::BlankNode(b)) => Some(RdfTerm::Blank(b.as_str().to_string())),
        Some(Term::Literal(l)) => Some(RdfTerm::Literal(l.value().to_string())),
        Some(Term::Triple(t)) => Some(RdfTerm::Triple(t.to_string())),
        None => None,
    }
}

/// Loads each `(path, text)` document as Turtle into one graph. The first
/// document that fails to parse stops the load, and its path is returned.
pub fn load_ontology(files: &Vec<(String, String)>) -> (r: Result<Store, CompileError>)
    ensures
        r is Ok <==> forall|i: int| 0 <= i < files@.len() ==> turtle_ok((#[trigger] files@[i]).1@),
        r matches Err(e) ==> (e matches CompileError::Load(p) && exists|i: int|
            0 <= i < files@.len() && p@ == (#[trigger] files@[i]).0@ && !turtle_ok(files@[i].1@)
                && forall|k: int| 0 <= k < i ==> turtle_ok((#[trigger] files@[k]).1@)),
{
    let store = new_store();
    let mut i: usize = 0;
    while i < files.len()
        invariant
            i <= files@.len(),
            forall|k: int| 0 <= k < i ==> turtle_ok((#[trigger] files@[k]).1@),
        decreases files@.len() - i,
    {
        let (path, text) = &files[i];
        match load_turtle(&store, text.as_str()) {
            Ok(()) => {},
            Err(_) => {
                let p = path.clone();
                assert(p@ == files@[i as int].0@);
                return Err(CompileError::Load(p));
            },
        }
        i = i + 1;
    }
    Ok(store)
}

/// Runs a SELECT query and hands back its solutions.
fn select(store: &Store, query: &str) -> (r: Result<Vec<QuerySolution>, CompileError>)
    ensures
        r matches Err(e) ==> e is Query,
{
    match run_query(store, query) {
        Ok(results) => match solutions(results) {
            Ok(rows) => Ok(rows),
            Err(_) => Err(CompileError::Query),
        },
        Err(_) => Err(CompileError::Query),
    }
}

/// The query for classes: resources typed as an RDFS or OWL class.
pub const CLASS_QUERY: &'static str = "PREFIX rdfs: <http://www.w3.org/2000/01/rdf-schema#>
PREFIX owl: <http://www.w3.org/2002/07/owl#>
SELECT DISTINCT ?class ?label ?comment
WHERE {
    ?class a ?classType .
    VALUES ?classType { rdfs:Class owl:Class }
    OPTIONAL { ?class rdfs:label ?label }
    OPTIONAL { ?class rdfs:comment ?comment }
}
ORDER BY ?class";

/// The query for properties, up to the class identifier.
pub const PROPERTY_QUERY_HEAD: &'static str = "PREFIX rdfs: <http://www.w3.org/2000/01/rdf-schema#>
SELECT DISTINCT ?property ?label ?comment ?range
WHERE {
    ?property rdfs:domain <";

/// The query for properties, after the class identifier.
pub const PROPERTY_QUERY_TAIL: &'static str = "> .
    OPTIONAL { ?property rdfs:label ?label }
    OPTIONAL { ?property rdfs:comment ?comment }
    OPTIONAL { ?property rdfs:range ?range }
}
ORDER BY ?property";

/// The query for the properties whose domain is `class_iri`.
pub fn property_query(class_iri: &str) -> (r: String)
    ensures
        r@ == PROPERTY_QUERY_HEAD@ + class_iri@ + PROPERTY_QUERY_TAIL@,
{
    let mut q = PROPERTY_QUERY_HEAD.to_string();
    q.append(class_iri);
    q.append(PROPERTY_QUERY_TAIL);
    q
}

/// The fields of a class, as resolved from the entries of its properties.
pub open spec fn resolved(entries: Seq<EntryModel>) -> Seq<PropertyModel> {
    entries.map_values(|e: EntryModel| property_of(e))
}

/// The bindings of `?class` and `?comment` in one solution of the class query.
pub type ClassRow = (Option<RdfTerm>, Option<RdfTerm>);

/// The bindings of `?property`, `?comment` and `?range` in one solution of
/// the property query.
pub type PropertyRow = (Option<RdfTerm>, Option<RdfTerm>, Option<RdfTerm>);

/// The class entries that the rows yield, in row order.
pub open spec fn kept_classes(rows: Seq<ClassRow>) -> Seq<EntryModel>
    decreases rows.len(),
{
    if rows.len() == 0 {
        Seq::empty()
    } else {
        let prev = kept_classes(rows.drop_last());
        match class_entry_of(rows.last().0, rows.last().1) {
            Some(e) => prev.push(e),
            None => prev,
        }
    }
}

/// The property entries that the rows yield, in row order.
pub open spec fn kept_properties(rows: Seq<PropertyRow>) -> Seq<EntryModel>
    decreases rows.len(),
{
    if rows.len() == 0 {
        Seq::empty()
    } else {
        let prev = kept_properties(rows.drop_last());
        match property_entry_of(rows.last().0, rows.last().1, rows.last().2) {
            Some(e) => prev.push(e),
            None => prev,
        }
    }
}

/// The classes that the solutions of the class query describe: one per
/// named, non-reserved class, ordered by identifier.
pub fn class_entries(rows: &Vec<ClassRow>) -> (r: Vec<Entry>)
    ensures
        is_discovery_of(entries_view(r@), kept_classes(rows@)),
{
    let mut kept: Vec<Entry> = Vec::new();
    let mut i: usize = 0;
    while i < rows.len()
        invariant
            i <= rows@.len(),
            entries_view(kept@) == kept_classes(rows@.subrange(0, i as int)),
        decreases rows@.len() - i,
    {
        let ghost before = kept@;
        let c = duplicate_term(&rows[i].0);
        let m = duplicate_term(&rows[i].1);
        let found = class_entry(c, m);
        proof {
            assert(rows@.subrange(0, i + 1).drop_last() =~= rows@.subrange(0, i as int));
        }
        match found {
            Some(e) => {
                kept.push(e);
                proof {
                    assert(entries_view(kept@) =~= entries_view(before).push(kept@.last()@));
                }
            },
            None => {},
        }
        i = i + 1;
    }
    proof {
        assert(rows@.subrange(0, i as int) =~= rows@);
    }
    discover(&kept)
}

/// The fields that the solutions of a property query describe: one per
/// property, ordered by identifier, typed by its range.
pub fn property_entries(rows: &Vec<PropertyRow>) -> (r: Vec<PropertyDescriptor>)
    ensures
        exists|es: Seq<EntryModel>|
            is_discovery_of(es, kept_properties(rows@)) && #[trigger] resolved(es) == properties_view(r@),
{
    let mut kept: Vec<Entry> = Vec::new();
    let mut i: usize = 0;
    while i < rows.len()
        invariant
            i <= rows@.len(),
            entries_view(kept@) == kept_properties(rows@.subrange(0, i as int)),
        decreases rows@.len() - i,
    {
        let ghost before = kept@;
        let p = duplicate_term(&rows[i].0);
        let c = duplicate_term(&rows[i].1);
        let g = duplicate_term(&rows[i].2);
        let found = property_entry(p, c, g);
        proof {
            assert(rows@.subrange(0, i + 1).drop_last() =~= rows@.subrange(0, i as int));
        }
        match found {
            Some(e) => {
                kept.push(e);
                proof {
                    assert(entries_view(kept@) =~= entries_view(before).push(kept@.last()@));
                }
            },
            None => {},
        }
        i = i + 1;
    }
    proof {
        assert(rows@.subrange(0, i as int) =~= rows@);
    }
    let entries = discover(&kept);
    let props = property_descriptors(&entries);
    proof {
        assert(resolved(entries_view(entries@)) == properties_view(props@));
    }
    props
}

/// Resolves the properties whose declared domain is `class_iri`: one field
/// per property, ordered by property identifier, typed by its range. An
/// identifier that cannot be written into the query is refused.
pub fn extract_properties(store: &Store, class_iri: &str) -> (r: Result<Vec<PropertyDescriptor>, CompileError>)
    ensures
        !iri_term_ok(class_iri@) ==> r matches Err(CompileError::Query),
        r matches Ok(v) ==> exists|es: Seq<EntryModel>|
            sorted_unique(es) && #[trigger] resolved(es) == properties_view(v@),
        r matches Err(e) ==> e is Query,
{
    if !is_iri_term(class_iri) {
        return Err(CompileError::Query);
    }
    let query = property_query(class_iri);
    let sols = match select(store, query.as_str()) {
        Ok(s) => s,
        Err(e) => return Err(e),
    };
    let mut rows: Vec<PropertyRow> = Vec::new();
    let mut i: usize = 0;
    while i < sols.len()
        invariant
            i <= sols@.len(),
        decreases sols@.len() - i,
    {
        let s = &sols[i];
        rows.push((binding(s, "property"), binding(s, "comment"), binding(s, "range")));
        i = i + 1;
    }
    Ok(property_entries(&rows))
}

/// The schema built from discovered class entries and, for each, the
/// entries of its properties.
pub open spec fn schema_of(classes: Seq<EntryModel>, properties: Seq<Seq<EntryModel>>) -> Seq<ClassModel> {
    Seq::new(classes.len(), |i: int| class_of(classes[i], resolved(properties[i])))
}

/// What a class query's entries and its property queries' entries must be
/// for a schema to come from them: classes in identifier order, none of them
/// reserved, and each class's properties in identifier order.
pub open spec fn well_formed_source(classes: Seq<EntryModel>, properties: Seq<Seq<EntryModel>>) -> bool {
    &&& sorted_unique(classes)
    &&& classes.len() == properties.len()
    &&& forall|i: int| 0 <= i < classes.len() ==> !is_reserved(#[trigger] classes[i].id)
    &&& forall|i: int| 0 <= i < properties.len() ==> sorted_unique(#[trigger] properties[i])
}

/// Index of the first failed resolution among `results`, if any.
pub open spec fn first_failure(results: Seq<Result<Vec<PropertyDescriptor>, CompileError>>, i: int) -> bool {
    0 <= i < results.len() && results[i] is Err && forall|k: int| 0 <= k < i ==> (#[trigger] results[k]) is Ok
}

/// The class that an entry becomes with the fields of a successful resolution.
pub open spec fn assembled(classes: Seq<EntryModel>, results: Seq<Result<Vec<PropertyDescriptor>, CompileError>>) -> Seq<ClassModel> {
    Seq::new(classes.len(), |i: int| class_of(classes[i], properties_view(results[i]->Ok_0@)))
}

impl CompileError {
    /// A copy of the error.
    pub fn duplicate(&self) -> (r: CompileError)
        ensures
            r == *self,
    {
        match self {
            CompileError::Load(p) => CompileError::Load(p.clone()),
            CompileError::Query => CompileError::Query,
        }
    }
}

/// Joins the discovered classes with the resolution of each one's
/// properties. The first failed resolution fails the whole schema.
pub fn assemble(classes: &Vec<Entry>, results: Vec<Result<Vec<PropertyDescriptor>, CompileError>>) -> (r: Result<Vec<ClassDescriptor>, CompileError>)
    requires
        classes@.len() == results@.len(),
    ensures
        r is Ok <==> forall|i: int| 0 <= i < results@.len() ==> (#[trigger] results@[i]) is Ok,
        r matches Ok(v) ==> classes_view(v@) == assembled(entries_view(classes@), results@),
        r matches Err(e) ==> exists|i: int| first_failure(results@, i) && results@[i] == Err::<Vec<PropertyDescriptor>, CompileError>(e),
{
    let n = results.len();
    let mut i: usize = 0;
    while i < n
        invariant
            n == results@.len(),
            i <= n,
            forall|k: int| 0 <= k < i ==> (#[trigger] results@[k]) is Ok,
        decreases n - i,
    {
        match &results[i] {
            Ok(_) => {},
            Err(e) => {
                let e2 = e.duplicate();
                assert(first_failure(results@, i as int));
                return Err(e2);
            },
        }
        i = i + 1;
    }
    let ghost all = results@;
    let mut rest = results;
    let mut out: Vec<ClassDescriptor> = Vec::new();
    let mut j: usize = 0;
    while j < n
        invariant
            n == all.len(),
            n == classes@.len(),
            j <= n,
            rest@ == all.subrange(j as int, n as int),
            forall|k: int| 0 <= k < n ==> (#[trigger] all[k]) is Ok,
            out@.len() == j,
            forall|k: int| 0 <= k < j ==> (#[trigger] out@[k])@ == class_of(classes@[k]@, properties_view(all[k]->Ok_0@)),
        decreases n - j,
    {
        let res = rest.remove(0);
        assert(res == all[j as int]);
        let props = match res {
            Ok(p) => p,
            Err(_) => Vec::new(),
        };
        out.push(class_descriptor(&classes[j], props));
        proof {
            assert(rest@ =~= all.subrange(j + 1, n as int));
        }
        j = j + 1;
    }
    proof {
        assert(classes_view(out@) =~= assembled(entries_view(classes@), all));
    }
    Ok(out)
}

/// Discovers every class of the graph, outside the reserved vocabulary, in
/// identifier order, each with its resolved properties.
pub fn extract_classes(store: &Store) -> (r: Result<Vec<ClassDescriptor>, CompileError>)
    ensures
        r matches Ok(v) ==> exists|cs: Seq<EntryModel>, ps: Seq<Seq<EntryModel>>|
            well_formed_source(cs, ps) && #[trigger] schema_of(cs, ps) == classes_view(v@),
        r matches Err(e) ==> e is Query,
{
    let sols = match select(store, CLASS_QUERY) {
        Ok(s) => s,
        Err(e) => return Err(e),
    };
    let mut rows: Vec<ClassRow> = Vec::new();
    let mut i: usize = 0;
    while i < sols.len()
        invariant
            i <= sols@.len(),
        decreases sols@.len() - i,
    {
        let s = &sols[i];
        rows.push((binding(s, "class"), binding(s, "comment")));
        i = i + 1;
    }
    let entries = class_entries(&rows);
    let mut results: Vec<Result<Vec<PropertyDescriptor>, CompileError>> = Vec::new();
    let mut j: usize = 0;
    while j < entries.len()
        invariant
            j <= entries@.len(),
            results@.len() == j,
            forall|k: int| 0 <= k < j ==> ((#[trigger] results@[k]) matches Err(e) ==> e is Query),
            forall|k: int| 0 <= k < j ==> ((#[trigger] results@[k]) matches Ok(v) ==> exists|es: Seq<EntryModel>|
                sorted_unique(es) && #[trigger] resolved(es) == properties_view(v@)),
        decreases entries@.len() - j,
    {
        results.push(extract_properties(store, entries[j].id.as_str()));
        j = j + 1;
    }
    let ghost all = results@;
    let r = assemble(&entries, results);
    proof {
        let cs = entries_view(entries@);
        assert forall|j: int| 0 <= j < cs.len() implies !is_reserved(#[trigger] cs[j].id) by {
            lemma_kept_classes_not_reserved(rows@);
            assert(crate::schema::is_least_row(kept_classes(rows@), cs[j]));
            let k = choose|k: int| 0 <= k < kept_classes(rows@).len() && kept_classes(rows@)[k] == cs[j];
            assert(!is_reserved(kept_classes(rows@)[k].id));
        }
        match &r {
            Ok(v) => {
                let ps = Seq::new(cs.len(), |k: int| choose|es: Seq<EntryModel>|
                    sorted_unique(es) && #[trigger] resolved(es) == properties_view(all[k]->Ok_0@));
                assert forall|k: int| 0 <= k < ps.len() implies sorted_unique(#[trigger] ps[k]) && resolved(ps[k]) == properties_view(all[k]->Ok_0@) by {
                    assert(all[k] is Ok);
                }
                assert(schema_of(cs, ps) =~= classes_view(v@));
                assert(well_formed_source(cs, ps));
            },
            Err(e) => {
                let i = choose|i: int| first_failure(all, i) && all[i] == Err::<Vec<PropertyDescriptor>, CompileError>(*e);
                assert(all[i] matches Err(e) ==> e is Query);
            },
        }
    }
    r
}

proof fn lemma_kept_classes_not_reserved(rows: Seq<ClassRow>)
    ensures
        forall|k: int| 0 <= k < kept_classes(rows).len() ==> !is_reserved(#[trigger] kept_classes(rows)[k].id),
    decreases rows.len(),
{
    if rows.len() > 0 {
        lemma_kept_classes_not_reserved(rows.drop_last());
    }
}

} // verus!
