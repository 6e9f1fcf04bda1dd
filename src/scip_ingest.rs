//! The semantic ingestion pipeline: definitions and references of a
//! precomputed symbol index become a call graph, each reference attributed
//! to a definition of its file whose range contains it.
use vstd::prelude::*;
use crate::range::{SourceRange, range_contains, range_of, range_size, parse_scip_range};
use crate::text::string_from_chars;
use crate::graph::{CallGraph, GraphBuilder, NodeView, callee_list, canonical_for, graph_well_formed, lemma_callee_list_members, with_callee};
use protobuf::Message;
use rayon::iter::{IntoParallelRefIterator, IndexedParallelIterator, ParallelIterator};

verus! {

/// One recorded appearance of a symbol.
#[derive(Debug, Clone)]
pub struct Occurrence {
    pub symbol: String,
    /// Bit 0 set marks a definition; otherwise the occurrence is a reference.
    pub symbol_roles: i32,
    /// Three or four numbers, see [`parse_scip_range`].
    pub range: Vec<i32>,
}

/// The occurrences of one source file, in index order.
#[derive(Debug, Clone)]
pub struct Document {
    pub relative_path: String,
    pub occurrences: Vec<Occurrence>,
}

/// A definition of a file, with the range it spans.
#[derive(Debug, Clone)]
pub struct DefinitionInfo {
    pub symbol: String,
    pub range: SourceRange,
}

pub struct OccurrenceView {
    pub symbol: Seq<char>,
    pub symbol_roles: i32,
    pub range: Seq<i32>,
}

pub struct DocumentView {
    pub relative_path: Seq<char>,
    pub occurrences: Seq<OccurrenceView>,
}

pub struct DefinitionView {
    pub symbol: Seq<char>,
    pub range: SourceRange,
}

impl View for Occurrence {
    type V = OccurrenceView;

    open spec fn view(&self) -> OccurrenceView {
        OccurrenceView { symbol: self.symbol@, symbol_roles: self.symbol_roles, range: self.range@ }
    }
}

impl View for Document {
    type V = DocumentView;

    open spec fn view(&self) -> DocumentView {
        DocumentView {
            relative_path: self.relative_path@,
            occurrences: self.occurrences@.map_values(|o: Occurrence| o@),
        }
    }
}

impl View for DefinitionInfo {
    type V = DefinitionView;

    open spec fn view(&self) -> DefinitionView {
        DefinitionView { symbol: self.symbol@, range: self.range }
    }
}

pub open spec fn definitions_view(defs: Seq<DefinitionInfo>) -> Seq<DefinitionView> {
    defs.map_values(|d: DefinitionInfo| d@)
}

/// Bit 0 of the roles marks a definition.
pub open spec fn is_definition(o: OccurrenceView) -> bool {
    o.symbol_roles & 1 != 0
}

/// The definitions among `occs`, in index order.
pub open spec fn definitions_of(occs: Seq<OccurrenceView>) -> Seq<DefinitionView>
    decreases occs.len(),
{
    if occs.len() == 0 {
        Seq::empty()
    } else {
        let o = occs.last();
        let prev = definitions_of(occs.drop_last());
        if is_definition(o) && o.symbol.len() > 0 {
            prev.push(DefinitionView { symbol: o.symbol, range: range_of(o.range) })
        } else {
            prev
        }
    }
}

/// `s` with `d` placed after every trailing element smaller than it: the
/// step of a stable sort by descending size.
pub open spec fn insert_by_size(s: Seq<DefinitionView>, d: DefinitionView) -> Seq<DefinitionView>
    decreases s.len(),
{
    if s.len() == 0 {
        seq![d]
    } else if range_size(s.last().range) >= range_size(d.range) {
        s.push(d)
    } else {
        insert_by_size(s.drop_last(), d).push(s.last())
    }
}

/// `s` stably sorted by descending size (equal sizes keep index order).
pub open spec fn sort_by_size(s: Seq<DefinitionView>) -> Seq<DefinitionView>
    decreases s.len(),
{
    if s.len() == 0 {
        s
    } else {
        insert_by_size(sort_by_size(s.drop_last()), s.last())
    }
}

/// The definitions of a file in the order that resolution scans them:
/// largest first.
pub open spec fn sorted_definitions(doc: DocumentView) -> Seq<DefinitionView> {
    sort_by_size(definitions_of(doc.occurrences))
}

proof fn lemma_insert_at(s: Seq<DefinitionView>, d: DefinitionView, k: int)
    requires
        0 <= k <= s.len(),
        forall|j: int| k <= j < s.len() ==> range_size(#[trigger] s[j].range) < range_size(d.range),
        k > 0 ==> range_size(s[k - 1].range) >= range_size(d.range),
    ensures
        insert_by_size(s, d) == s.insert(k, d),
    decreases s.len(),
{
    if s.len() == 0 {
        assert(s.insert(k, d) =~= seq![d]);
    } else if k == s.len() {
        assert(s.insert(k, d) =~= s.push(d));
    } else {
        let t = s.drop_last();
        lemma_insert_at(t, d, k);
        assert(s.insert(k, d) =~= t.insert(k, d).push(s.last()));
    }
}

/// Insert `d` into `v` as [`insert_by_size`] says.
fn insert_definition(v: &mut Vec<DefinitionInfo>, d: DefinitionInfo)
    ensures
        definitions_view(final(v)@) == insert_by_size(definitions_view(old(v)@), d@),
{
    let size = d.range.size();
    let mut k: usize = v.len();
    while k > 0 && v[k - 1].range.size() < size
        invariant
            k <= v.len(),
            size == range_size(d.range),
            forall|j: int| k <= j < v.len() ==> range_size(#[trigger] v[j].range) < size,
        decreases k,
    {
        k = k - 1;
    }
    let ghost s = definitions_view(v@);
    proof {
        assert forall|j: int| k <= j < s.len() implies range_size(#[trigger] s[j].range) < range_size(
            d@.range,
        ) by {
            assert(s[j].range == v[j].range);
        }
        if k > 0 {
            assert(s[k - 1].range == v[k - 1].range);
        }
        lemma_insert_at(s, d@, k as int);
    }
    v.insert(k, d);
    assert(definitions_view(v@) =~= s.insert(k as int, d@));
}

/// Pass one for a single file: its definitions, sorted by descending size.
pub fn collect_definitions(doc: &Document) -> (r: Vec<DefinitionInfo>)
    ensures
        definitions_view(r@) == sorted_definitions(doc@),
{
    let mut defs: Vec<DefinitionInfo> = Vec::new();
    let ghost occs = doc@.occurrences;
    let mut i: usize = 0;
    assert(occs.take(0) =~= Seq::<OccurrenceView>::empty());
    while i < doc.occurrences.len()
        invariant
            i <= doc.occurrences.len(),
            occs == doc@.occurrences,
            definitions_view(defs@) == sort_by_size(definitions_of(occs.take(i as int))),
        decreases doc.occurrences.len() - i,
    {
        let o = &doc.occurrences[i];
        assert(occs.take(i + 1).drop_last() =~= occs.take(i as int));
        assert(occs.take(i + 1).last() == o@);
        if o.symbol_roles & 1 != 0 && !o.symbol.as_str().is_empty() {
            let range = parse_scip_range(o.range.as_slice());
            let d = DefinitionInfo { symbol: o.symbol.clone(), range };
            let ghost prev = definitions_of(occs.take(i as int));
            assert(definitions_of(occs.take(i + 1)) == prev.push(d@));
            assert(prev.push(d@).drop_last() =~= prev);
            insert_definition(&mut defs, d);
        }
        i = i + 1;
    }
    assert(occs.take(i as int) =~= occs);
    defs
}

/// The first of `defs` whose range contains `r`.
pub open spec fn first_containing(defs: Seq<DefinitionView>, r: SourceRange) -> Option<DefinitionView>
    decreases defs.len(),
{
    if defs.len() == 0 {
        None
    } else if range_contains(defs[0].range, r) {
        Some(defs[0])
    } else {
        first_containing(defs.drop_first(), r)
    }
}

/// The (caller, callee) pairs of the references among `occs`: each
/// reference is attributed to the first of `defs` that contains it, and
/// one that none contains gives no pair.
pub open spec fn reference_edges(defs: Seq<DefinitionView>, occs: Seq<OccurrenceView>) -> Seq<
    (Seq<char>, Seq<char>),
>
    decreases occs.len(),
{
    if occs.len() == 0 {
        Seq::empty()
    } else {
        let o = occs.last();
        let prev = reference_edges(defs, occs.drop_last());
        if !is_definition(o) && o.symbol.len() > 0 {
            match first_containing(defs, range_of(o.range)) {
                Some(d) => prev.push((d.symbol, o.symbol)),
                None => prev,
            }
        } else {
            prev
        }
    }
}

/// The pairs that the references of one file give.
pub open spec fn document_edges(doc: DocumentView) -> Seq<(Seq<char>, Seq<char>)> {
    reference_edges(sorted_definitions(doc), doc.occurrences)
}

/// The pairs of all files, file after file.
pub open spec fn index_edges(docs: Seq<DocumentView>) -> Seq<(Seq<char>, Seq<char>)>
    decreases docs.len(),
{
    if docs.len() == 0 {
        Seq::empty()
    } else {
        index_edges(docs.drop_last()) + document_edges(docs.last())
    }
}

/// The symbols of `defs`, in order.
pub open spec fn symbols_of(defs: Seq<DefinitionView>) -> Seq<Seq<char>> {
    defs.map_values(|d: DefinitionView| d.symbol)
}

/// The symbols that the definitions of the index give, file after file.
pub open spec fn index_symbols(docs: Seq<DocumentView>) -> Seq<Seq<char>>
    decreases docs.len(),
{
    if docs.len() == 0 {
        Seq::empty()
    } else {
        index_symbols(docs.drop_last()) + symbols_of(definitions_of(docs.last().occurrences))
    }
}

/// Some file of the index defines `k`.
pub open spec fn defines(docs: Seq<DocumentView>, k: Seq<char>) -> bool {
    index_symbols(docs).contains(k)
}

/// The node of `k` in the graph of an index.
pub open spec fn semantic_node(docs: Seq<DocumentView>, k: Seq<char>) -> NodeView {
    NodeView { id: k, label: Some(label_of(k)), callees: callee_list(index_edges(docs), k) }
}

/// The nodes of the graph of an index: one per defined symbol.
pub open spec fn semantic_model(docs: Seq<DocumentView>) -> Map<Seq<char>, NodeView> {
    Map::new(|k: Seq<char>| defines(docs, k), |k: Seq<char>| semantic_node(docs, k))
}

/// The last space-separated segment of `s`.
pub open spec fn last_segment(s: Seq<char>) -> Seq<char>
    decreases s.len(),
{
    if s.len() == 0 {
        s
    } else if s.last() == ' ' {
        Seq::empty()
    } else {
        last_segment(s.drop_last()).push(s.last())
    }
}

pub open spec fn is_trailing_mark(c: char) -> bool {
    c == '(' || c == ')' || c == '.' || c == '#'
}

/// `s` without its trailing `(`, `)`, `.` and `#`.
pub open spec fn trim_trailing_marks(s: Seq<char>) -> Seq<char>
    decreases s.len(),
{
    if s.len() > 0 && is_trailing_mark(s.last()) {
        trim_trailing_marks(s.drop_last())
    } else {
        s
    }
}

/// `s` with each `/` written as `::`.
pub open spec fn slashes_as_paths(s: Seq<char>) -> Seq<char>
    decreases s.len(),
{
    if s.len() == 0 {
        s
    } else if s.last() == '/' {
        slashes_as_paths(s.drop_last()) + seq![':', ':']
    } else {
        slashes_as_paths(s.drop_last()).push(s.last())
    }
}

/// The display label of an index symbol: its last segment, without
/// trailing punctuation, with path separators as `::`.
pub open spec fn label_of(symbol: Seq<char>) -> Seq<char> {
    slashes_as_paths(trim_trailing_marks(last_segment(symbol)))
}

/// Where the last space-separated segment of `cs` starts.
fn last_segment_start(cs: &Vec<char>) -> (start: usize)
    ensures
        start <= cs.len(),
        last_segment(cs@) == cs@.skip(start as int),
{
    let ghost s = cs@;
    let mut start: usize = cs.len();
    assert(s.take(start as int) =~= s);
    assert(last_segment(s) + s.skip(start as int) =~= last_segment(s));
    while start > 0 && cs[start - 1] != ' '
        invariant
            start <= cs.len(),
            s == cs@,
            last_segment(s) == last_segment(s.take(start as int)) + s.skip(start as int),
        decreases start,
    {
        let ghost t = s.take(start as int);
        assert(t.drop_last() =~= s.take(start - 1));
        assert(s.skip(start - 1) =~= seq![t.last()] + s.skip(start as int));
        assert(last_segment(t) == last_segment(t.drop_last()).push(t.last()));
        assert(last_segment(t.drop_last()) + s.skip(start - 1) =~= last_segment(t.drop_last()).push(
            t.last(),
        ) + s.skip(start as int));
        start = start - 1;
    }
    proof {
        if start > 0 {
            assert(last_segment(s.take(start as int)) =~= Seq::<char>::empty());
        } else {
            assert(s.take(0) =~= Seq::<char>::empty());
        }
        assert(last_segment(s) =~= s.skip(start as int));
    }
    start
}

/// Where `cs[start..]` ends once its trailing marks are dropped.
fn trimmed_end(cs: &Vec<char>, start: usize) -> (end: usize)
    requires
        start <= cs.len(),
    ensures
        start <= end <= cs.len(),
        trim_trailing_marks(cs@.skip(start as int)) == cs@.subrange(start as int, end as int),
{
    let ghost s = cs@;
    let mut end: usize = cs.len();
    assert(s.subrange(start as int, end as int) =~= s.skip(start as int));
    while end > start && (cs[end - 1] == '(' || cs[end - 1] == ')' || cs[end - 1] == '.' || cs[end
        - 1] == '#')
        invariant
            start <= end <= cs.len(),
            s == cs@,
            trim_trailing_marks(s.skip(start as int)) == trim_trailing_marks(
                s.subrange(start as int, end as int),
            ),
        decreases end,
    {
        assert(s.subrange(start as int, end as int).drop_last() =~= s.subrange(start as int, end - 1));
        end = end - 1;
    }
    end
}

/// `cs[start..end]` with each `/` written as `::`.
fn paths_between(cs: &Vec<char>, start: usize, end: usize) -> (out: Vec<char>)
    requires
        start <= end <= cs.len(),
    ensures
        out@ == slashes_as_paths(cs@.subrange(start as int, end as int)),
{
    let ghost s = cs@;
    let mut out: Vec<char> = Vec::new();
    let mut i: usize = start;
    assert(s.subrange(start as int, start as int) =~= Seq::<char>::empty());
    while i < end
        invariant
            start <= i <= end <= cs.len(),
            s == cs@,
            out@ == slashes_as_paths(s.subrange(start as int, i as int)),
        decreases end - i,
    {
        assert(s.subrange(start as int, i + 1).drop_last() =~= s.subrange(start as int, i as int));
        if cs[i] == '/' {
            out.push(':');
            out.push(':');
            assert(out@ =~= slashes_as_paths(s.subrange(start as int, i as int)) + seq![':', ':']);
        } else {
            out.push(cs[i]);
        }
        i = i + 1;
    }
    out
}

/// A human-readable label for an index symbol, see [`label_of`].
pub fn extract_label_from_symbol(symbol: &str) -> (r: String)
    ensures
        r@ == label_of(symbol@),
{
    let cs = crate::text::chars_of(symbol);
    let start = last_segment_start(&cs);
    let end = trimmed_end(&cs, start);
    let out = paths_between(&cs, start, end);
    string_from_chars(&out)
}

proof fn lemma_insert_by_size_contains(s: Seq<DefinitionView>, d: DefinitionView, x: DefinitionView)
    ensures
        insert_by_size(s, d).contains(x) <==> s.contains(x) || x == d,
    decreases s.len(),
{
    if s.len() == 0 {
        assert(seq![d][0] == d);
    } else if range_size(s.last().range) >= range_size(d.range) {
        assert(s.push(d)[s.len() as int] == d);
        if s.contains(x) {
            let i = choose|i: int| 0 <= i < s.len() && s[i] == x;
            assert(s.push(d)[i] == x);
        }
    } else {
        let t = s.drop_last();
        lemma_insert_by_size_contains(t, d, x);
        let u = insert_by_size(t, d);
        assert(u.push(s.last())[u.len() as int] == s.last());
        if t.contains(x) {
            let i = choose|i: int| 0 <= i < t.len() && t[i] == x;
            assert(s[i] == x);
        }
        if s.contains(x) {
            let i = choose|i: int| 0 <= i < s.len() && s[i] == x;
            if i < t.len() {
                assert(t[i] == x);
            }
        }
        if u.contains(x) {
            let i = choose|i: int| 0 <= i < u.len() && u[i] == x;
            assert(u.push(s.last())[i] == x);
        }
    }
}

/// Sorting by size keeps exactly the definitions it is given.
pub proof fn lemma_sort_by_size_contains(s: Seq<DefinitionView>, x: DefinitionView)
    ensures
        sort_by_size(s).contains(x) <==> s.contains(x),
    decreases s.len(),
{
    if s.len() > 0 {
        let t = s.drop_last();
        lemma_sort_by_size_contains(t, x);
        lemma_insert_by_size_contains(sort_by_size(t), s.last(), x);
        if t.contains(x) {
            let i = choose|i: int| 0 <= i < t.len() && t[i] == x;
            assert(s[i] == x);
        }
        if s.contains(x) {
            let i = choose|i: int| 0 <= i < s.len() && s[i] == x;
            if i < t.len() {
                assert(t[i] == x);
            }
        }
    }
}

proof fn lemma_sorted_symbols(s: Seq<DefinitionView>, k: Seq<char>)
    ensures
        symbols_of(sort_by_size(s)).contains(k) <==> symbols_of(s).contains(k),
{
    let t = sort_by_size(s);
    if symbols_of(t).contains(k) {
        let i = choose|i: int| 0 <= i < t.len() && symbols_of(t)[i] == k;
        assert(t.contains(t[i]));
        lemma_sort_by_size_contains(s, t[i]);
        let j = choose|j: int| 0 <= j < s.len() && s[j] == t[i];
        assert(symbols_of(s)[j] == k);
    }
    if symbols_of(s).contains(k) {
        let i = choose|i: int| 0 <= i < s.len() && symbols_of(s)[i] == k;
        assert(s.contains(s[i]));
        lemma_sort_by_size_contains(s, s[i]);
        let j = choose|j: int| 0 <= j < t.len() && t[j] == s[i];
        assert(symbols_of(t)[j] == k);
    }
}

/// The scan of pass two: the index of the first of `defs` that contains `r`.
fn find_caller(defs: &Vec<DefinitionInfo>, r: &SourceRange) -> (res: Option<usize>)
    ensures
        match res {
            Some(i) => i < defs.len() && first_containing(definitions_view(defs@), *r) == Some(
                defs[i as int]@,
            ),
            None => first_containing(definitions_view(defs@), *r) is None,
        },
{
    let ghost dv = definitions_view(defs@);
    let mut i: usize = 0;
    assert(dv.skip(0) =~= dv);
    while i < defs.len()
        invariant
            i <= defs.len(),
            dv == definitions_view(defs@),
            first_containing(dv, *r) == first_containing(dv.skip(i as int), *r),
        decreases defs.len() - i,
    {
        assert(dv.skip(i as int)[0] == defs[i as int]@);
        if defs[i].range.contains(r) {
            return Some(i);
        }
        assert(dv.skip(i as int).drop_first() =~= dv.skip(i + 1));
        i = i + 1;
    }
    assert(dv.skip(i as int) =~= Seq::<DefinitionView>::empty());
    None
}

pub open spec fn edges_view(v: Seq<(String, String)>) -> Seq<(Seq<char>, Seq<char>)> {
    v.map_values(|e: (String, String)| (e.0@, e.1@))
}

/// Pass two for a single file: the (caller, callee) pair of each of its
/// references, given its definitions sorted by descending size.
pub fn resolve_references(doc: &Document, defs: &Vec<DefinitionInfo>) -> (r: Vec<(String, String)>)
    ensures
        edges_view(r@) == reference_edges(definitions_view(defs@), doc@.occurrences),
{
    let ghost occs = doc@.occurrences;
    let ghost dv = definitions_view(defs@);
    let mut out: Vec<(String, String)> = Vec::new();
    let mut i: usize = 0;
    assert(occs.take(0) =~= Seq::<OccurrenceView>::empty());
    assert(edges_view(out@) =~= Seq::<(Seq<char>, Seq<char>)>::empty());
    while i < doc.occurrences.len()
        invariant
            i <= doc.occurrences.len(),
            occs == doc@.occurrences,
            dv == definitions_view(defs@),
            edges_view(out@) == reference_edges(dv, occs.take(i as int)),
        decreases doc.occurrences.len() - i,
    {
        let o = &doc.occurrences[i];
        assert(occs.take(i + 1).drop_last() =~= occs.take(i as int));
        assert(occs.take(i + 1).last() == o@);
        if o.symbol_roles & 1 == 0 && !o.symbol.as_str().is_empty() {
            let range = parse_scip_range(o.range.as_slice());
            match find_caller(defs, &range) {
                Some(k) => {
                    let ghost prev = edges_view(out@);
                    out.push((defs[k].symbol.clone(), o.symbol.clone()));
                    assert(edges_view(out@) =~= prev.push((defs[k as int].symbol@, o.symbol@)));
                },
                None => {},
            }
        }
        i = i + 1;
    }
    assert(occs.take(i as int) =~= occs);
    out
}

pub open spec fn documents_view(docs: Seq<Document>) -> Seq<DocumentView> {
    docs.map_values(|d: Document| d@)
}

/// Relies on rayon: `par_iter().map(..).collect()` over a vector gives one
/// result per element, in the order of the elements.
#[verifier::external_body]
fn definitions_in_parallel(docs: &Vec<Document>) -> (r: Vec<Vec<DefinitionInfo>>)
    ensures
        r.len() == docs.len(),
        forall|i: int| 0 <= i < docs.len() ==> definitions_view(#[trigger] r[i]@) == sorted_definitions(docs[i]@),
{
    docs.par_iter().map(collect_definitions).collect()
}

/// Relies on rayon: `par_iter().zip(..).map(..).collect()` over two vectors
/// of one length pairs them index by index and gives one result per pair,
/// in order.
#[verifier::external_body]
fn references_in_parallel(docs: &Vec<Document>, defs: &Vec<Vec<DefinitionInfo>>) -> (r: Vec<Vec<(String, String)>>)
    requires
        defs.len() == docs.len(),
    ensures
        r.len() == docs.len(),
        forall|i: int| 0 <= i < docs.len() ==> edges_view(#[trigger] r[i]@) == reference_edges(
            definitions_view(defs[i]@),
            docs[i]@.occurrences,
        ),
{
    docs.par_iter().zip(defs.par_iter()).map(|(d, ds)| resolve_references(d, ds)).collect()
}

/// The nodes of the index's defined symbols, each with the callees that the
/// pairs `edges` give it.
pub open spec fn edge_model(docs: Seq<DocumentView>, edges: Seq<(Seq<char>, Seq<char>)>) -> Map<Seq<char>, NodeView> {
    Map::new(
        |k: Seq<char>| defines(docs, k),
        |k: Seq<char>| NodeView { id: k, label: Some(label_of(k)), callees: callee_list(edges, k) },
    )
}

proof fn lemma_edge_model_push(docs: Seq<DocumentView>, edges: Seq<(Seq<char>, Seq<char>)>, c: Seq<char>, x: Seq<char>)
    ensures
        edge_model(docs, edges.push((c, x))) == (if edge_model(docs, edges).contains_key(c) {
            edge_model(docs, edges).insert(c, with_callee(edge_model(docs, edges)[c], x))
        } else {
            edge_model(docs, edges)
        }),
{
    let e2 = edges.push((c, x));
    assert(e2.drop_last() =~= edges);
    let m1 = edge_model(docs, edges);
    let m2 = edge_model(docs, e2);
    if m1.contains_key(c) {
        assert(m2 =~= m1.insert(c, with_callee(m1[c], x)));
    } else {
        assert(m2 =~= m1);
    }
}

proof fn lemma_concat_contains<A>(a: Seq<A>, b: Seq<A>, x: A)
    ensures
        (a + b).contains(x) <==> a.contains(x) || b.contains(x),
{
    if (a + b).contains(x) {
        let i = choose|i: int| 0 <= i < (a + b).len() && (a + b)[i] == x;
        if i < a.len() {
            assert(a[i] == x);
        } else {
            assert(b[i - a.len()] == x);
        }
    }
    if a.contains(x) {
        let i = choose|i: int| 0 <= i < a.len() && a[i] == x;
        assert((a + b)[i] == x);
    }
    if b.contains(x) {
        let i = choose|i: int| 0 <= i < b.len() && b[i] == x;
        assert((a + b)[a.len() + i] == x);
    }
}

/// The node of a defined symbol before any callee is recorded.
pub open spec fn registered_node(k: Seq<char>) -> NodeView {
    NodeView { id: k, label: Some(label_of(k)), callees: Seq::empty() }
}

/// Builds call graphs from symbol indices.
pub struct ScipIngestor;

/// Why an index could not be ingested.
#[derive(Debug, Clone, Copy, PartialEq, Eq, Structural)]
pub enum IngestError {
    /// The index file could not be opened.
    Open,
    /// The index file could not be mapped into memory.
    Mmap,
    /// The bytes are not a well-formed index.
    Decode,
}

/// The description of each error: the step that failed.
pub open spec fn error_message(e: IngestError) -> Seq<char> {
    match e {
        IngestError::Open => "Failed to open SCIP index file"@,
        IngestError::Mmap => "Failed to memory-map SCIP index file"@,
        IngestError::Decode => "Failed to parse SCIP index protobuf"@,
    }
}

impl IngestError {
    /// A description of the step that failed, see [`error_message`].
    pub fn message(&self) -> (r: String)
        ensures
            r@ == error_message(*self),
    {
        match self {
            IngestError::Open => "Failed to open SCIP index file".to_owned(),
            IngestError::Mmap => "Failed to memory-map SCIP index file".to_owned(),
            IngestError::Decode => "Failed to parse SCIP index protobuf".to_owned(),
        }
    }
}

/// protobuf's decode error, held opaque.
#[verifier::external_type_specification]
#[verifier::external_body]
pub struct ExProtobufError(protobuf::Error);

/// The documents that `bytes` encode as an index message, or `None` where
/// they are not one.
pub uninterp spec fn decoded_index(bytes: Seq<u8>) -> Option<Seq<DocumentView>>;

/// Relies on protobuf's `Message::parse_from_bytes` for `scip::types::Index`:
/// it fails, or returns the message that the bytes encode, which depends on
/// the bytes alone; each document keeps its path and occurrences in order.
#[verifier::external_body]
fn decode_index(bytes: &[u8]) -> (r: Result<Vec<Document>, protobuf::Error>)
    ensures
        r is Ok <==> decoded_index(bytes@) is Some,
        r matches Ok(docs) ==> decoded_index(bytes@) == Some(documents_view(docs@)),
{
    scip::types::Index::parse_from_bytes(bytes).map(|index| index.documents.into_iter().map(|d| Document {
        relative_path: d.relative_path,
        occurrences: d.occurrences.into_iter().map(|o| Occurrence {
            symbol: o.symbol,
            symbol_roles: o.symbol_roles,
            range: o.range,
        }).collect(),
    }).collect())
}

impl ScipIngestor {
    /// The call graph of an index's documents: a node for each defined
    /// symbol, with the callees that its references give, in canonical
    /// order.  Both passes work on the documents in parallel.
    pub fn build_graph(docs: &Vec<Document>) -> (g: CallGraph)
        ensures
            canonical_for(g@, semantic_model(documents_view(docs@))),
            graph_well_formed(g@),
    {
        let ghost dv = documents_view(docs@);
        let defs = definitions_in_parallel(docs);
        let mut b = GraphBuilder::new();
        let mut i: usize = 0;
        assert(dv.take(0) =~= Seq::<DocumentView>::empty());
        while i < defs.len()
            invariant
                b.wf(),
                i <= defs.len(),
                defs.len() == docs.len(),
                dv == documents_view(docs@),
                forall|x: int| 0 <= x < docs.len() ==> definitions_view(#[trigger] defs[x]@) == sorted_definitions(docs[x]@),
                forall|k: Seq<char>| #[trigger] b.model().contains_key(k) <==> index_symbols(dv.take(i as int)).contains(k),
                forall|k: Seq<char>| #[trigger] b.model().contains_key(k) ==> b.model()[k] == registered_node(k),
            decreases defs.len() - i,
        {
            let ds = &defs[i];
            let ghost before = index_symbols(dv.take(i as int));
            let ghost sv = definitions_view(ds@);
            let mut j: usize = 0;
            while j < ds.len()
                invariant
                    b.wf(),
                    j <= ds.len(),
                    sv == definitions_view(ds@),
                    forall|k: Seq<char>| #[trigger] b.model().contains_key(k) <==> before.contains(k)
                        || symbols_of(sv.take(j as int)).contains(k),
                    forall|k: Seq<char>| #[trigger] b.model().contains_key(k) ==> b.model()[k] == registered_node(k),
                decreases ds.len() - j,
            {
                let sym = &ds[j].symbol;
                let label = extract_label_from_symbol(sym.as_str());
                b.get_or_create(sym.clone(), Some(label));
                proof {
                    assert(symbols_of(sv.take(j + 1)) =~= symbols_of(sv.take(j as int)) + seq![sym@]);
                    assert forall|k: Seq<char>| #[trigger] b.model().contains_key(k) <==> before.contains(k)
                        || symbols_of(sv.take(j + 1)).contains(k) by {
                        lemma_concat_contains(symbols_of(sv.take(j as int)), seq![sym@], k);
                        assert(seq![sym@].contains(k) <==> k == sym@) by {
                            if k == sym@ {
                                assert(seq![sym@][0] == k);
                            }
                        }
                    }
                }
                j = j + 1;
            }
            proof {
                assert(sv.take(j as int) =~= sv);
                assert(dv[i as int] == docs[i as int]@);
                assert(dv.take(i + 1).drop_last() =~= dv.take(i as int));
                assert(dv.take(i + 1).last() == dv[i as int]);
                let unsorted = definitions_of(dv[i as int].occurrences);
                assert forall|k: Seq<char>| #[trigger] b.model().contains_key(k) <==> index_symbols(dv.take(i + 1)).contains(k) by {
                    lemma_sorted_symbols(unsorted, k);
                    lemma_concat_contains(before, symbols_of(unsorted), k);
                }
            }
            i = i + 1;
        }
        assert(dv.take(i as int) =~= dv);
        assert(b.model() =~= edge_model(dv, index_edges(dv.take(0))));
        let edges = references_in_parallel(docs, &defs);
        let mut i: usize = 0;
        while i < edges.len()
            invariant
                b.wf(),
                i <= edges.len(),
                edges.len() == docs.len(),
                defs.len() == docs.len(),
                dv == documents_view(docs@),
                forall|x: int| 0 <= x < docs.len() ==> definitions_view(#[trigger] defs[x]@) == sorted_definitions(docs[x]@),
                forall|x: int| 0 <= x < docs.len() ==> edges_view(#[trigger] edges[x]@) == reference_edges(
                    definitions_view(defs[x]@),
                    docs[x]@.occurrences,
                ),
                b.model() == edge_model(dv, index_edges(dv.take(i as int))),
            decreases edges.len() - i,
        {
            let es = &edges[i];
            let ghost before = index_edges(dv.take(i as int));
            let ghost ev = edges_view(es@);
            let mut j: usize = 0;
            assert(before + ev.take(0) =~= before);
            while j < es.len()
                invariant
                    b.wf(),
                    j <= es.len(),
                    ev == edges_view(es@),
                    b.model() == edge_model(dv, before + ev.take(j as int)),
                decreases es.len() - j,
            {
                let caller = crate::text::chars_of(es[j].0.as_str());
                proof {
                    lemma_edge_model_push(dv, before + ev.take(j as int), es[j as int].0@, es[j as int].1@);
                    assert((before + ev.take(j as int)).push((es[j as int].0@, es[j as int].1@)) =~= before
                        + ev.take(j + 1));
                }
                b.add_callee(&caller, &es[j].1);
                j = j + 1;
            }
            proof {
                assert(ev.take(j as int) =~= ev);
                assert(dv[i as int] == docs[i as int]@);
                assert(dv.take(i + 1).drop_last() =~= dv.take(i as int));
                assert(dv.take(i + 1).last() == dv[i as int]);
                assert(ev == document_edges(dv[i as int]));
            }
            i = i + 1;
        }
        assert(dv.take(i as int) =~= dv);
        assert(semantic_model(dv) =~= edge_model(dv, index_edges(dv)));
        b.finish()
    }

    /// The call graph of an encoded index, or [`IngestError::Decode`] where
    /// the bytes are not one.
    pub fn ingest_bytes(bytes: &[u8]) -> (r: Result<CallGraph, IngestError>)
        ensures
            match decoded_index(bytes@) {
                None => r == Err::<CallGraph, IngestError>(IngestError::Decode),
                Some(dv) => r matches Ok(g) && canonical_for(g@, semantic_model(dv))
                    && graph_well_formed(g@),
            },
    {
        match decode_index(bytes) {
            Ok(docs) => Ok(ScipIngestor::build_graph(&docs)),
            Err(_) => Err(IngestError::Decode),
        }
    }
}

/// Two ingestions of the same index give the same graph: the same nodes,
/// in the same order, each with its callees in the same order.
pub proof fn lemma_ingestion_deterministic(docs: Seq<DocumentView>, g1: Seq<NodeView>, g2: Seq<NodeView>)
    requires
        canonical_for(g1, semantic_model(docs)),
        canonical_for(g2, semantic_model(docs)),
    ensures
        g1 == g2,
{
    crate::graph::lemma_canonical_unique(g1, g2, semantic_model(docs));
}

proof fn lemma_first_containing_sole(s: Seq<DefinitionView>, d: DefinitionView, r: SourceRange)
    requires
        s.contains(d),
        range_contains(d.range, r),
        forall|e: DefinitionView| s.contains(e) && range_contains(e.range, r) ==> e == d,
    ensures
        first_containing(s, r) == Some(d),
    decreases s.len(),
{
    assert(s.contains(s[0]));
    if !range_contains(s[0].range, r) {
        let t = s.drop_first();
        let i = choose|i: int| 0 <= i < s.len() && s[i] == d;
        assert(i != 0);
        assert(t[i - 1] == d);
        assert forall|e: DefinitionView| t.contains(e) && range_contains(e.range, r) implies e == d by {
            let j = choose|j: int| 0 <= j < t.len() && t[j] == e;
            assert(s[j + 1] == e);
            assert(s.contains(e));
        }
        lemma_first_containing_sole(t, d, r);
    }
}

/// A reference that exactly one definition of its file contains is
/// attributed to that definition.
pub proof fn lemma_sole_container_is_caller(doc: DocumentView, d: DefinitionView, r: SourceRange)
    requires
        definitions_of(doc.occurrences).contains(d),
        range_contains(d.range, r),
        forall|e: DefinitionView| #[trigger] definitions_of(doc.occurrences).contains(e) && range_contains(e.range, r) ==> e == d,
    ensures
        first_containing(sorted_definitions(doc), r) == Some(d),
{
    let s = definitions_of(doc.occurrences);
    lemma_sort_by_size_contains(s, d);
    assert forall|e: DefinitionView| sort_by_size(s).contains(e) && range_contains(e.range, r) implies e == d by {
        lemma_sort_by_size_contains(s, e);
    }
    lemma_first_containing_sole(sort_by_size(s), d, r);
}

proof fn lemma_reference_edges_contains(defs: Seq<DefinitionView>, occs: Seq<OccurrenceView>, j: int, d: DefinitionView)
    requires
        0 <= j < occs.len(),
        !is_definition(occs[j]),
        occs[j].symbol.len() > 0,
        first_containing(defs, range_of(occs[j].range)) == Some(d),
    ensures
        reference_edges(defs, occs).contains((d.symbol, occs[j].symbol)),
    decreases occs.len(),
{
    let prev = reference_edges(defs, occs.drop_last());
    let cur = reference_edges(defs, occs);
    if j == occs.len() - 1 {
        assert(cur == prev.push((d.symbol, occs[j].symbol)));
        assert(cur[prev.len() as int] == (d.symbol, occs[j].symbol));
    } else {
        assert(occs.drop_last()[j] == occs[j]);
        lemma_reference_edges_contains(defs, occs.drop_last(), j, d);
        let x = choose|x: int| 0 <= x < prev.len() && prev[x] == (d.symbol, occs[j].symbol);
        assert(cur[x] == prev[x]);
    }
}

proof fn lemma_index_edges_contains(docs: Seq<DocumentView>, i: int, e: (Seq<char>, Seq<char>))
    requires
        0 <= i < docs.len(),
        document_edges(docs[i]).contains(e),
    ensures
        index_edges(docs).contains(e),
    decreases docs.len(),
{
    let a = index_edges(docs.drop_last());
    let b = document_edges(docs.last());
    if i == docs.len() - 1 {
        lemma_concat_contains(a, b, e);
    } else {
        assert(docs.drop_last()[i] == docs[i]);
        lemma_index_edges_contains(docs.drop_last(), i, e);
        lemma_concat_contains(a, b, e);
    }
}

proof fn lemma_index_symbols_contains(docs: Seq<DocumentView>, i: int, d: DefinitionView)
    requires
        0 <= i < docs.len(),
        definitions_of(docs[i].occurrences).contains(d),
    ensures
        index_symbols(docs).contains(d.symbol),
    decreases docs.len(),
{
    let a = index_symbols(docs.drop_last());
    let b = symbols_of(definitions_of(docs.last().occurrences));
    if i == docs.len() - 1 {
        let x = choose|x: int| 0 <= x < definitions_of(docs[i].occurrences).len()
            && definitions_of(docs[i].occurrences)[x] == d;
        assert(b[x] == d.symbol);
        lemma_concat_contains(a, b, d.symbol);
    } else {
        assert(docs.drop_last()[i] == docs[i]);
        lemma_index_symbols_contains(docs.drop_last(), i, d);
        lemma_concat_contains(a, b, d.symbol);
    }
}

/// A definition spanning a reference that no other definition of its file
/// spans calls the referenced symbol: in the graph of the index, its node
/// lists that symbol among its callees.
pub proof fn lemma_contained_reference_is_callee(
    docs: Seq<DocumentView>,
    i: int,
    j: int,
    d: DefinitionView,
    g: Seq<NodeView>,
)
    requires
        0 <= i < docs.len(),
        0 <= j < docs[i].occurrences.len(),
        !is_definition(docs[i].occurrences[j]),
        docs[i].occurrences[j].symbol.len() > 0,
        docs[i].occurrences[j].symbol != d.symbol,
        definitions_of(docs[i].occurrences).contains(d),
        range_contains(d.range, range_of(docs[i].occurrences[j].range)),
        forall|e: DefinitionView| #[trigger] definitions_of(docs[i].occurrences).contains(e) && range_contains(
            e.range,
            range_of(docs[i].occurrences[j].range),
        ) ==> e == d,
        canonical_for(g, semantic_model(docs)),
    ensures
        exists|n: int| 0 <= n < g.len() && g[n].id == d.symbol && g[n].callees.contains(docs[i].occurrences[j].symbol),
{
    let o = docs[i].occurrences[j];
    lemma_sole_container_is_caller(docs[i], d, range_of(o.range));
    lemma_reference_edges_contains(sorted_definitions(docs[i]), docs[i].occurrences, j, d);
    lemma_index_edges_contains(docs, i, (d.symbol, o.symbol));
    lemma_callee_list_members(index_edges(docs), d.symbol, o.symbol);
    lemma_index_symbols_contains(docs, i, d);
    let m = semantic_model(docs);
    assert(m.contains_key(d.symbol));
    let n = choose|n: int| 0 <= n < g.len() && g[n].id == d.symbol;
    assert(m[g[n].id] == g[n]);
}

} // verus!
