//! The structured-document tree: ordered named nodes with named/positional
//! attribute entries, optional brace-delimited child blocks, and the literal
//! whitespace that precedes every element. A document re-serializes to text
//! deterministically, byte for byte.

use vstd::prelude::*;

verus! {

// ---------------------------------------------------------------------------
// Data model
// ---------------------------------------------------------------------------

/// An attribute value: a quoted string, or a bare word (booleans, numbers).
pub enum Value {
    Str(String),
    Bare(String),
}

/// One attribute of a node: named (`command="x"`) when `name` is present,
/// positional otherwise. `leading` is the literal whitespace that precedes the
/// entry in its line.
pub struct Entry {
    pub leading: String,
    pub name: Option<String>,
    pub value: Value,
}

/// A named element: leading whitespace, name, attribute entries, and an
/// optional child block. `before_children` is the whitespace between the last
/// entry and the opening brace; it is empty when there is no child block.
pub struct Node {
    pub leading: String,
    pub name: String,
    pub entries: Vec<Entry>,
    pub before_children: String,
    pub children: Option<Document>,
}

/// An ordered sequence of sibling nodes. `trailing` is the whitespace after
/// the last node, up to the closing brace or the end of the file.
pub struct Document {
    pub nodes: Vec<Node>,
    pub trailing: String,
}

// ---------------------------------------------------------------------------
// Mathematical model
// ---------------------------------------------------------------------------

#[verifier::ext_equal]
pub ghost enum ValueV {
    Str(Seq<char>),
    Bare(Seq<char>),
}

#[verifier::ext_equal]
pub ghost struct EntryV {
    pub leading: Seq<char>,
    pub name: Option<Seq<char>>,
    pub value: ValueV,
}

#[verifier::ext_equal]
pub ghost struct NodeV {
    pub leading: Seq<char>,
    pub name: Seq<char>,
    pub entries: Seq<EntryV>,
    pub before_children: Seq<char>,
    pub children: Option<DocV>,
}

#[verifier::ext_equal]
pub ghost struct DocV {
    pub nodes: Seq<NodeV>,
    pub trailing: Seq<char>,
}

pub open spec fn value_view(v: Value) -> ValueV {
    match v {
        Value::Str(s) => ValueV::Str(s@),
        Value::Bare(s) => ValueV::Bare(s@),
    }
}

pub open spec fn entry_view(e: Entry) -> EntryV {
    EntryV {
        leading: e.leading@,
        name: match e.name {
            Some(n) => Some(n@),
            None => None,
        },
        value: value_view(e.value),
    }
}

pub open spec fn entries_view(es: Seq<Entry>) -> Seq<EntryV> {
    es.map_values(|e: Entry| entry_view(e))
}

pub open spec fn node_view(n: Node) -> NodeV
    decreases n,
{
    NodeV {
        leading: n.leading@,
        name: n.name@,
        entries: entries_view(n.entries@),
        before_children: n.before_children@,
        children: match n.children {
            Some(d) => Some(doc_view(d)),
            None => None,
        },
    }
}

pub open spec fn nodes_view(ns: Seq<Node>) -> Seq<NodeV>
    decreases ns,
{
    if ns.len() == 0 {
        Seq::<NodeV>::empty()
    } else {
        nodes_view(ns.drop_last()).push(node_view(ns.last()))
    }
}

pub open spec fn doc_view(d: Document) -> DocV
    decreases d,
{
    DocV { nodes: nodes_view(d.nodes@), trailing: d.trailing@ }
}

/// The node list of a document's model is the elementwise model of its nodes.
pub broadcast proof fn lemma_nodes_view(ns: Seq<Node>)
    ensures
        (#[trigger] nodes_view(ns)).len() == ns.len(),
        forall|i: int| 0 <= i < ns.len() ==> nodes_view(ns)[i] == node_view(ns[i]),
    decreases ns,
{
    if ns.len() == 0 {
    } else {
        lemma_nodes_view(ns.drop_last());
    }
}

// ---------------------------------------------------------------------------
// Character classes and well-formedness
// ---------------------------------------------------------------------------

pub open spec fn is_inline_ws(c: char) -> bool {
    c == ' ' || c == '\t' || c == '\r'
}

pub open spec fn is_ws(c: char) -> bool {
    is_inline_ws(c) || c == '\n'
}

/// A character that may appear in a node name or a bare value.
pub open spec fn is_name_char(c: char) -> bool {
    !(is_ws(c) || c == '"' || c == '=' || c == '{' || c == '}')
}

pub open spec fn all_ws(s: Seq<char>) -> bool {
    forall|i: int| 0 <= i < s.len() ==> is_ws(s[i])
}

pub open spec fn all_inline_ws(s: Seq<char>) -> bool {
    forall|i: int| 0 <= i < s.len() ==> is_inline_ws(s[i])
}

pub open spec fn valid_name(s: Seq<char>) -> bool {
    s.len() > 0 && forall|i: int| 0 <= i < s.len() ==> is_name_char(s[i])
}

pub open spec fn no_quote(s: Seq<char>) -> bool {
    forall|i: int| 0 <= i < s.len() ==> s[i] != '"'
}

pub open spec fn contains_newline(s: Seq<char>) -> bool {
    exists|i: int| 0 <= i < s.len() && s[i] == '\n'
}

pub open spec fn wf_entry(e: EntryV) -> bool {
    &&& e.leading.len() > 0
    &&& all_inline_ws(e.leading)
    &&& match e.name {
        Some(n) => valid_name(n),
        None => true,
    }
    &&& match e.value {
        ValueV::Str(s) => no_quote(s),
        ValueV::Bare(s) => valid_name(s),
    }
}

/// A node as the parser produces it: whitespace fields hold only whitespace,
/// the name is a proper identifier, and a node without a child block carries
/// no text before one.
pub open spec fn wf_node(n: NodeV) -> bool
    decreases n,
{
    &&& all_ws(n.leading)
    &&& valid_name(n.name)
    &&& (forall|i: int| 0 <= i < n.entries.len() ==> wf_entry(#[trigger] n.entries[i]))
    &&& all_inline_ws(n.before_children)
    &&& match n.children {
        Some(d) => wf_doc(d),
        None => n.before_children.len() == 0,
    }
}

/// A document is well formed when its nodes are, and a node that closed at a
/// line end is separated from the next node by at least one newline.
pub open spec fn wf_doc(d: DocV) -> bool
    decreases d,
{
    &&& all_ws(d.trailing)
    &&& (forall|i: int| 0 <= i < d.nodes.len() ==> wf_node(#[trigger] d.nodes[i]))
    &&& (forall|i: int|
        1 <= i < d.nodes.len() && d.nodes[i - 1].children is None ==> contains_newline(
            #[trigger] d.nodes[i].leading,
        ))
}

// ---------------------------------------------------------------------------
// Serialization
// ---------------------------------------------------------------------------

pub open spec fn ser_value(v: ValueV) -> Seq<char> {
    match v {
        ValueV::Str(s) => seq!['"'] + s + seq!['"'],
        ValueV::Bare(s) => s,
    }
}

pub open spec fn ser_entry(e: EntryV) -> Seq<char> {
    e.leading + (match e.name {
        Some(n) => n + seq!['='],
        None => Seq::<char>::empty(),
    }) + ser_value(e.value)
}

pub open spec fn ser_entries(es: Seq<EntryV>) -> Seq<char>
    decreases es.len(),
{
    if es.len() == 0 {
        Seq::<char>::empty()
    } else {
        ser_entries(es.drop_last()) + ser_entry(es.last())
    }
}

pub open spec fn ser_node(n: NodeV) -> Seq<char>
    decreases n,
{
    n.leading + n.name + ser_entries(n.entries) + (match n.children {
        Some(d) => n.before_children + seq!['{'] + ser_doc(d) + seq!['}'],
        None => Seq::<char>::empty(),
    })
}

pub open spec fn ser_nodes(ns: Seq<NodeV>) -> Seq<char>
    decreases ns,
{
    if ns.len() == 0 {
        Seq::<char>::empty()
    } else {
        ser_nodes(ns.drop_last()) + ser_node(ns.last())
    }
}

pub open spec fn ser_doc(d: DocV) -> Seq<char>
    decreases d,
{
    ser_nodes(d.nodes) + d.trailing
}

// ---------------------------------------------------------------------------
// Executable serializer
// ---------------------------------------------------------------------------

fn write_value(v: &Value, out: &mut String)
    ensures
        final(out)@ == old(out)@ + ser_value(value_view(*v)),
{
    proof {
        reveal_strlit("\"");
        assert("\""@ =~= seq!['"']);
    }
    match v {
        Value::Str(s) => {
            out.append("\"");
            out.append(s.as_str());
            out.append("\"");
            assert(final(out)@ =~= old(out)@ + ser_value(value_view(*v)));
        },
        Value::Bare(s) => {
            out.append(s.as_str());
        },
    }
}

fn write_entry(e: &Entry, out: &mut String)
    ensures
        final(out)@ == old(out)@ + ser_entry(entry_view(*e)),
{
    proof {
        reveal_strlit("=");
        assert("="@ =~= seq!['=']);
    }
    out.append(e.leading.as_str());
    match &e.name {
        Some(n) => {
            out.append(n.as_str());
            out.append("=");
        },
        None => {},
    }
    write_value(&e.value, out);
    assert(final(out)@ =~= old(out)@ + ser_entry(entry_view(*e)));
}

fn write_node(n: &Node, out: &mut String)
    ensures
        final(out)@ == old(out)@ + ser_node(node_view(*n)),
    decreases *n,
{
    proof {
        reveal_strlit("{");
        reveal_strlit("}");
        assert("{"@ =~= seq!['{']);
        assert("}"@ =~= seq!['}']);
    }
    out.append(n.leading.as_str());
    out.append(n.name.as_str());
    let ghost ev = entries_view(n.entries@);
    let ghost mid0 = out@;
    let mut i: usize = 0;
    while i < n.entries.len()
        invariant
            ev == entries_view(n.entries@),
            i <= n.entries.len(),
            ev.len() == n.entries@.len(),
            out@ == mid0 + ser_entries(ev.take(i as int)),
        decreases n.entries.len() - i,
    {
        write_entry(&n.entries[i], out);
        proof {
            assert(ev.take(i + 1).drop_last() =~= ev.take(i as int));
            assert(ev.take(i + 1).last() == entry_view(n.entries@[i as int]));
            assert(out@ =~= mid0 + ser_entries(ev.take(i + 1)));
        }
        i = i + 1;
    }
    proof {
        assert(ev.take(ev.len() as int) =~= ev);
    }
    match &n.children {
        Some(d) => {
            out.append(n.before_children.as_str());
            out.append("{");
            write_doc(d, out);
            out.append("}");
            assert(final(out)@ =~= old(out)@ + ser_node(node_view(*n)));
        },
        None => {
            assert(final(out)@ =~= old(out)@ + ser_node(node_view(*n)));
        },
    }
}

fn write_doc(d: &Document, out: &mut String)
    ensures
        final(out)@ == old(out)@ + ser_doc(doc_view(*d)),
    decreases *d,
{
    proof {
        lemma_nodes_view(d.nodes@);
    }
    let ghost nv = doc_view(*d).nodes;
    let ghost base = out@;
    let mut i: usize = 0;
    while i < d.nodes.len()
        invariant
            nv == doc_view(*d).nodes,
            nv.len() == d.nodes@.len(),
            i <= d.nodes.len(),
            out@ == base + ser_nodes(nv.take(i as int)),
        decreases d.nodes.len() - i,
    {
        write_node(&d.nodes[i], out);
        proof {
            lemma_nodes_view(d.nodes@);
            assert(nv.take(i + 1).drop_last() =~= nv.take(i as int));
            assert(nv.take(i + 1).last() == node_view(d.nodes@[i as int]));
            assert(out@ =~= base + ser_nodes(nv.take(i + 1)));
        }
        i = i + 1;
    }
    out.append(d.trailing.as_str());
    proof {
        assert(nv.take(nv.len() as int) =~= nv);
        assert(final(out)@ =~= old(out)@ + ser_doc(doc_view(*d)));
    }
}

/// Serializes a document back to text.
pub fn serialize_doc(d: &Document) -> (r: String)
    ensures
        r@ == ser_doc(doc_view(*d)),
{
    let mut out = String::new();
    write_doc(d, &mut out);
    out
}

// ---------------------------------------------------------------------------
// Parsing
// ---------------------------------------------------------------------------

fn ws_char(c: char) -> (b: bool)
    ensures
        b == is_ws(c),
{
    c == ' ' || c == '\t' || c == '\r' || c == '\n'
}

fn inline_ws_char(c: char) -> (b: bool)
    ensures
        b == is_inline_ws(c),
{
    c == ' ' || c == '\t' || c == '\r'
}

fn name_char(c: char) -> (b: bool)
    ensures
        b == is_name_char(c),
{
    !(c == ' ' || c == '\t' || c == '\r' || c == '\n' || c == '"' || c == '=' || c == '{'
        || c == '}')
}

fn scan_ws(s: &str, i: usize, n: usize) -> (j: usize)
    requires
        n == s@.len(),
        i <= n,
    ensures
        i <= j <= n,
        forall|k: int| i <= k < j ==> is_ws(s@[k]),
        j < n ==> !is_ws(s@[j as int]),
{
    let mut j = i;
    while j < n
        invariant
            n == s@.len(),
            i <= j <= n,
            forall|k: int| i <= k < j ==> is_ws(s@[k]),
        decreases n - j,
    {
        if !ws_char(s.get_char(j)) {
            return j;
        }
        j = j + 1;
    }
    j
}

fn scan_inline_ws(s: &str, i: usize, n: usize) -> (j: usize)
    requires
        n == s@.len(),
        i <= n,
    ensures
        i <= j <= n,
        forall|k: int| i <= k < j ==> is_inline_ws(s@[k]),
        j < n ==> !is_inline_ws(s@[j as int]),
{
    let mut j = i;
    while j < n
        invariant
            n == s@.len(),
            i <= j <= n,
            forall|k: int| i <= k < j ==> is_inline_ws(s@[k]),
        decreases n - j,
    {
        if !inline_ws_char(s.get_char(j)) {
            return j;
        }
        j = j + 1;
    }
    j
}

fn scan_name(s: &str, i: usize, n: usize) -> (j: usize)
    requires
        n == s@.len(),
        i <= n,
    ensures
        i <= j <= n,
        forall|k: int| i <= k < j ==> is_name_char(s@[k]),
        j < n ==> !is_name_char(s@[j as int]),
{
    let mut j = i;
    while j < n
        invariant
            n == s@.len(),
            i <= j <= n,
            forall|k: int| i <= k < j ==> is_name_char(s@[k]),
        decreases n - j,
    {
        if !name_char(s.get_char(j)) {
            return j;
        }
        j = j + 1;
    }
    j
}

fn scan_to_quote(s: &str, i: usize, n: usize) -> (r: Option<usize>)
    requires
        n == s@.len(),
        i <= n,
    ensures
        r matches Some(j) ==> i <= j < n && s@[j as int] == '"' && forall|k: int|
            i <= k < j ==> s@[k] != '"',
        r is None ==> forall|k: int| i <= k < n ==> s@[k] != '"',
{
    let mut j = i;
    while j < n
        invariant
            n == s@.len(),
            i <= j <= n,
            forall|k: int| i <= k < j ==> s@[k] != '"',
        decreases n - j,
    {
        if s.get_char(j) == '"' {
            return Some(j);
        }
        j = j + 1;
    }
    None
}

/// Position `m` closes the line that position `i` stands on: only inline
/// whitespace lies between, and `m` is a line end, a closing brace, or the
/// end of the input.
spec fn break_pos_ok(s: Seq<char>, i: int, m: int) -> bool {
    i <= m <= s.len() && (forall|k: int| i <= k < m ==> is_inline_ws(s[k])) && (m == s.len()
        || s[m] == '\n' || s[m] == '}')
}

/// After position `i` only inline whitespace stands before a line end, a
/// closing brace, or the end of the input.
spec fn line_break_ahead(s: Seq<char>, i: int) -> bool {
    exists|m: int| break_pos_ok(s, i, m)
}

// ---------------------------------------------------------------------------
// The grammar is unambiguous: any well-formed document that serializes to a
// stretch of the input pins every boundary the parser chooses, so parsing is
// complete (it succeeds on exactly the serializations of well-formed
// documents) and deterministic. The predicates below name a hypothetical
// parse; the parser's contracts rule on all of them at once.
// ---------------------------------------------------------------------------

/// The serialized child block of a node; empty when it has none.
spec fn ser_child_part(n: NodeV) -> Seq<char> {
    match n.children {
        Some(d) => n.before_children + seq!['{'] + ser_doc(d) + seq!['}'],
        None => Seq::<char>::empty(),
    }
}

/// A well-formed node serializes exactly the text from `i` to `b`; one
/// without a child block is followed by a line end (possibly behind inline
/// whitespace), a closing brace, or the end of the text — as a node inside
/// any well-formed document is.
spec fn node_hyp(s: Seq<char>, i: int, b: int, nv: NodeV) -> bool {
    &&& wf_node(nv)
    &&& 0 <= i <= b <= s.len()
    &&& ser_node(nv) == s.subrange(i, b)
    &&& (nv.children is None ==> line_break_ahead(s, b))
}

/// A well-formed document serializes exactly the text from `start` to `j`,
/// which ends the input (`top`) or stops at a closing brace.
spec fn doc_hyp(s: Seq<char>, start: int, j: int, dv: DocV, top: bool) -> bool {
    &&& wf_doc(dv)
    &&& 0 <= start <= j <= s.len()
    &&& ser_doc(dv) == s.subrange(start, j)
    &&& if top {
        j == s.len()
    } else {
        j < s.len() && s[j] == '}'
    }
}

/// Splitting a concatenation known to cover a stretch of text.
proof fn lemma_concat_split(s: Seq<char>, i: int, j: int, a: Seq<char>, b: Seq<char>)
    requires
        0 <= i <= j <= s.len(),
        a + b == s.subrange(i, j),
    ensures
        i + a.len() <= j,
        a == s.subrange(i, i + a.len()),
        b == s.subrange(i + a.len(), j),
{
    assert((a + b).len() == j - i);
    assert(forall|k: int| 0 <= k < a.len() ==> a[k] == (a + b)[k]);
    assert(forall|k: int| 0 <= k < b.len() ==> b[k] == (a + b)[a.len() + k]);
    assert(a =~= s.subrange(i, i + a.len()));
    assert(b =~= s.subrange(i + a.len(), j));
}

/// Two runs of whitespace from the same start, each ended by something that
/// is not whitespace, end at the same place.
proof fn lemma_ws_run_eq(s: Seq<char>, i: int, w: int, m: int)
    requires
        0 <= i <= w <= s.len(),
        0 <= i <= m <= s.len(),
        forall|k: int| i <= k < w ==> is_ws(s[k]),
        w < s.len() ==> !is_ws(s[w]),
        forall|k: int| i <= k < m ==> is_ws(s[k]),
        m < s.len() ==> !is_ws(s[m]),
    ensures
        m == w,
{
    if m < w {
        assert(is_ws(s[m]));
    }
    if w < m {
        assert(is_ws(s[w]));
    }
}

proof fn lemma_inline_run_eq(s: Seq<char>, i: int, w: int, m: int)
    requires
        0 <= i <= w <= s.len(),
        0 <= i <= m <= s.len(),
        forall|k: int| i <= k < w ==> is_inline_ws(s[k]),
        w < s.len() ==> !is_inline_ws(s[w]),
        forall|k: int| i <= k < m ==> is_inline_ws(s[k]),
        m < s.len() ==> !is_inline_ws(s[m]),
    ensures
        m == w,
{
    if m < w {
        assert(is_inline_ws(s[m]));
    }
    if w < m {
        assert(is_inline_ws(s[w]));
    }
}

proof fn lemma_name_run_eq(s: Seq<char>, i: int, w: int, m: int)
    requires
        0 <= i <= w <= s.len(),
        0 <= i <= m <= s.len(),
        forall|k: int| i <= k < w ==> is_name_char(s[k]),
        w < s.len() ==> !is_name_char(s[w]),
        forall|k: int| i <= k < m ==> is_name_char(s[k]),
        m < s.len() ==> !is_name_char(s[m]),
    ensures
        m == w,
{
    if m < w {
        assert(is_name_char(s[m]));
    }
    if w < m {
        assert(is_name_char(s[w]));
    }
}

proof fn lemma_noquote_run_eq(s: Seq<char>, i: int, w: int, m: int)
    requires
        0 <= i <= w <= s.len(),
        0 <= i <= m <= s.len(),
        forall|k: int| i <= k < w ==> s[k] != '"',
        w < s.len() ==> s[w] == '"',
        forall|k: int| i <= k < m ==> s[k] != '"',
        m < s.len() ==> s[m] == '"',
        w < s.len(),
        m < s.len(),
    ensures
        m == w,
{
    if m < w {
        assert(s[m] != '"');
    }
    if w < m {
        assert(s[w] != '"');
    }
}

/// Entry serialization splits at any point of the entry list.
proof fn lemma_ser_entries_cat(a: Seq<EntryV>, b: Seq<EntryV>)
    ensures
        ser_entries(a + b) == ser_entries(a) + ser_entries(b),
    decreases b.len(),
{
    if b.len() == 0 {
        assert(a + b =~~= a);
        assert(ser_entries(a) + ser_entries(b) =~= ser_entries(a));
    } else {
        lemma_ser_entries_cat(a, b.drop_last());
        assert((a + b).drop_last() =~~= a + b.drop_last());
        assert((a + b).last() == b.last());
        assert(ser_entries(a + b) == ser_entries(a + b.drop_last()) + ser_entry(b.last()));
        assert(ser_entries(a) + (ser_entries(b.drop_last()) + ser_entry(b.last())) =~= (
        ser_entries(a) + ser_entries(b.drop_last())) + ser_entry(b.last()));
    }
}

/// Entry serialization peels from the front as well.
proof fn lemma_ser_entries_front(es: Seq<EntryV>)
    requires
        es.len() > 0,
    ensures
        ser_entries(es) == ser_entry(es[0]) + ser_entries(es.drop_first()),
{
    assert(es =~~= seq![es[0]] + es.drop_first());
    lemma_ser_entries_cat(seq![es[0]], es.drop_first());
    assert(ser_entries(seq![es[0]]) == ser_entries(seq![es[0]].drop_last()) + ser_entry(
        seq![es[0]].last(),
    ));
    assert(seq![es[0]].drop_last() =~~= Seq::<EntryV>::empty());
    assert(ser_entries(seq![es[0]]) =~= ser_entry(es[0]));
}

/// Node-list serialization peels from the front.
proof fn lemma_ser_nodes_front(ns: Seq<NodeV>)
    requires
        ns.len() > 0,
    ensures
        ser_nodes(ns) == ser_node(ns[0]) + ser_nodes(ns.drop_first()),
    decreases ns.len(),
{
    if ns.len() == 1 {
        assert(ns.drop_last() =~~= Seq::<NodeV>::empty());
        assert(ns.drop_first() =~~= Seq::<NodeV>::empty());
        assert(ser_nodes(ns) =~= ser_node(ns[0]) + ser_nodes(ns.drop_first()));
    } else {
        lemma_ser_nodes_front(ns.drop_last());
        assert(ns.drop_last()[0] == ns[0]);
        assert(ns.drop_last().drop_first() =~~= ns.drop_first().drop_last());
        assert(ns.drop_first().last() == ns.last());
        assert(ser_nodes(ns) == ser_nodes(ns.drop_last()) + ser_node(ns.last()));
        assert(ser_nodes(ns.drop_last()) == ser_node(ns[0]) + ser_nodes(
            ns.drop_first().drop_last(),
        ));
        assert(ser_nodes(ns.drop_first()) == ser_nodes(ns.drop_first().drop_last()) + ser_node(
            ns.drop_first().last(),
        ));
        assert((ser_node(ns[0]) + ser_nodes(ns.drop_first().drop_last())) + ser_node(ns.last())
            =~= ser_node(ns[0]) + (ser_nodes(ns.drop_first().drop_last()) + ser_node(ns.last())));
    }
}

/// The first character of a serialized entry list is the inline whitespace
/// that leads its first entry.
proof fn lemma_ser_entry_shape(e: EntryV)
    requires
        wf_entry(e),
    ensures
        ser_entry(e).len() > e.leading.len(),
        forall|k: int| 0 <= k < e.leading.len() ==> ser_entry(e)[k] == e.leading[k],
        ({
            let c = ser_entry(e)[e.leading.len() as int];
            !is_inline_ws(c) && !is_ws(c) && (c == '"' || is_name_char(c))
        }),
{
    let l = e.leading.len() as int;
    match e.name {
        Some(nm) => {
            assert(ser_entry(e)[l] == nm[0]);
            assert(is_name_char(nm[0]));
        },
        None => {
            match e.value {
                ValueV::Str(v) => {
                    assert(ser_entry(e)[l] == '"');
                },
                ValueV::Bare(v) => {
                    assert(ser_entry(e)[l] == v[0]);
                    assert(is_name_char(v[0]));
                },
            }
        },
    }
}

/// With a line break ahead, the next character (if any) can only be inline
/// whitespace, a line end, or a closing brace.
proof fn lemma_break_char(s: Seq<char>, b: int)
    requires
        line_break_ahead(s, b),
        0 <= b < s.len(),
    ensures
        is_inline_ws(s[b]) || s[b] == '\n' || s[b] == '}',
{
    let m = choose|m: int| break_pos_ok(s, b, m);
    assert(break_pos_ok(s, b, m));
    if m == b {
        assert(m < s.len());
    } else {
        assert(is_inline_ws(s[b]));
    }
}

/// A whitespace run that contains a line end has a first line end, behind
/// inline whitespace only.
proof fn lemma_first_newline(l: Seq<char>)
    requires
        all_ws(l),
        contains_newline(l),
    ensures
        exists|p: int|
            0 <= p < l.len() && l[p] == '\n' && (forall|k: int| 0 <= k < p ==> is_inline_ws(l[k])),
    decreases l.len(),
{
    let q = choose|q: int| 0 <= q < l.len() && l[q] == '\n';
    if l[0] == '\n' {
        assert(0 <= 0 < l.len() && l[0] == '\n' && (forall|k: int|
            0 <= k < 0 ==> is_inline_ws(l[k])));
    } else {
        assert(l.drop_first()[q - 1] == '\n');
        assert(contains_newline(l.drop_first()));
        assert(forall|k: int| 0 <= k < l.drop_first().len() ==> is_ws(#[trigger] l.drop_first()[k]))
            by {
            assert(forall|k: int|
                0 <= k < l.drop_first().len() ==> #[trigger] l.drop_first()[k] == l[k + 1]);
        }
        lemma_first_newline(l.drop_first());
        let p0 = choose|p: int|
            0 <= p < l.drop_first().len() && l.drop_first()[p] == '\n' && (forall|k: int|
                0 <= k < p ==> is_inline_ws(l.drop_first()[k]));
        assert(l[p0 + 1] == '\n');
        assert(forall|k: int| 0 <= k < p0 + 1 ==> is_inline_ws(l[k])) by {
            assert(forall|k: int| 1 <= k < p0 + 1 ==> l[k] == l.drop_first()[k - 1]);
            assert(is_inline_ws(l[0]));
        }
    }
}

/// The entry loop's alignment with a hypothetical node: the first `e`
/// entries serialize the text up to `j`, the rest and the child block the
/// text up to `b`.
spec fn hyp_entry_state(
    s: Seq<char>,
    name_end: int,
    j: int,
    b: int,
    nv: NodeV,
    e: int,
) -> bool {
    &&& 0 <= e <= nv.entries.len()
    &&& 0 <= name_end <= j <= b <= s.len()
    &&& ser_entries(nv.entries.take(e)) == s.subrange(name_end, j)
    &&& ser_entries(nv.entries.skip(e)) + ser_child_part(nv) == s.subrange(j, b)
}

/// Every hypothetical node starting at `lead_start` agrees with the parsed
/// leading whitespace and name and aligns with the entry loop at `j`.
spec fn head_aligned(s: Seq<char>, lead_start: int, name_start: int, name_end: int, j: int) -> bool {
    forall|hv: NodeV, hb: int|
        node_hyp(s, lead_start, hb, hv) ==> (hv.leading == s.subrange(lead_start, name_start)
            && hv.name == s.subrange(name_start, name_end) && exists|e: int|
            hyp_entry_state(s, name_end, j, hb, hv, e))
}

/// Every hypothetical node starting at `lead_start` shares the parsed
/// leading whitespace and name, and aligns with the entry loop.
proof fn lemma_hyp_head_init(
    s: Seq<char>,
    lead_start: int,
    name_start: int,
    name_end: int,
    b: int,
    nv: NodeV,
)
    requires
        node_hyp(s, lead_start, b, nv),
        0 <= lead_start <= name_start < s.len(),
        forall|k: int| lead_start <= k < name_start ==> is_ws(s[k]),
        is_name_char(s[name_start]),
        name_start <= name_end <= s.len(),
        forall|k: int| name_start <= k < name_end ==> is_name_char(s[k]),
        name_end < s.len() ==> !is_name_char(s[name_end]),
    ensures
        nv.leading == s.subrange(lead_start, name_start),
        nv.name == s.subrange(name_start, name_end),
        hyp_entry_state(s, name_end, name_end, b, nv, 0),
{
    let se = ser_entries(nv.entries);
    let cp = ser_child_part(nv);
    assert(ser_node(nv) == ((nv.leading + nv.name) + se) + cp);
    assert(((nv.leading + nv.name) + se) + cp =~= nv.leading + ((nv.name + se) + cp));
    lemma_concat_split(s, lead_start, b, nv.leading, (nv.name + se) + cp);
    let l = nv.leading.len() as int;
    assert(forall|k: int| lead_start <= k < lead_start + l ==> is_ws(s[k])) by {
        assert(forall|k: int|
            lead_start <= k < lead_start + l ==> s.subrange(lead_start, lead_start + l)[k
                - lead_start] == s[k]);
    }
    assert((nv.name + se) + cp =~= nv.name + (se + cp));
    lemma_concat_split(s, lead_start + l, b, nv.name, se + cp);
    assert(s[lead_start + l] == nv.name[0]);
    assert(lead_start + l < s.len());
    lemma_ws_run_eq(s, lead_start, name_start, lead_start + l);
    let m = nv.name.len() as int;
    let p = name_start + m;
    assert(forall|k: int| name_start <= k < p ==> is_name_char(s[k])) by {
        assert(forall|k: int|
            name_start <= k < p ==> s.subrange(name_start, p)[k - name_start] == s[k]);
    }
    // whatever follows the name is not a name character
    if se.len() > 0 {
        assert(nv.entries.len() > 0) by {
            if nv.entries.len() == 0 {
                assert(ser_entries(nv.entries).len() == 0);
            }
        }
        lemma_ser_entries_front(nv.entries);
        lemma_ser_entry_shape(nv.entries[0]);
        assert((se + cp)[0] == se[0]);
        assert(se[0] == ser_entry(nv.entries[0])[0]);
        assert(ser_entry(nv.entries[0])[0] == nv.entries[0].leading[0]);
        assert(is_inline_ws(s[p]));
        assert(p < s.len());
        assert(!is_name_char(s[p]));
    } else {
        match nv.children {
            Some(d) => {
                assert((se + cp)[0] == cp[0]);
                if nv.before_children.len() > 0 {
                    assert(cp[0] == nv.before_children[0]);
                    assert(is_inline_ws(s[p]));
                } else {
                    assert(cp[0] == '{');
                    assert(s[p] == '{');
                }
                assert(p < s.len());
                assert(!is_name_char(s[p]));
            },
            None => {
                assert(cp.len() == 0);
                assert(p == b);
                if b < s.len() {
                    lemma_break_char(s, b);
                    assert(!is_name_char(s[p]));
                }
            },
        }
    }
    lemma_name_run_eq(s, name_start, name_end, p);
    assert(ser_entries(nv.entries.take(0)) =~= s.subrange(name_end, name_end)) by {
        assert(nv.entries.take(0) =~~= Seq::<EntryV>::empty());
    }
    assert(nv.entries.skip(0) =~~= nv.entries);
}

/// Decomposes the remaining text of an aligned hypothetical at its next
/// entry: that entry's serialization is the next stretch of the text, led by
/// its inline whitespace and opened by a quote or a name character.
proof fn lemma_hyp_entry_decomp(s: Seq<char>, j: int, b: int, nv: NodeV, e: int)
    requires
        wf_node(nv),
        0 <= e < nv.entries.len(),
        0 <= j <= b <= s.len(),
        ser_entries(nv.entries.skip(e)) + ser_child_part(nv) == s.subrange(j, b),
    ensures
        ({
            let en = ser_entry(nv.entries[e]).len();
            &&& wf_entry(nv.entries[e])
            &&& nv.entries[e].leading.len() > 0
            &&& j + en <= b
            &&& ser_entry(nv.entries[e]) == s.subrange(j, j + en)
            &&& ser_entries(nv.entries.skip(e + 1)) + ser_child_part(nv) == s.subrange(j + en, b)
            &&& (forall|k: int| j <= k < j + nv.entries[e].leading.len() ==> is_inline_ws(s[k]))
            &&& j + nv.entries[e].leading.len() < b
            &&& !is_inline_ws(s[j + nv.entries[e].leading.len()])
            &&& (s[j + nv.entries[e].leading.len()] == '"' || is_name_char(
                s[j + nv.entries[e].leading.len()],
            ))
        }),
{
    let es = nv.entries;
    assert(wf_entry(es[e]));
    assert(es.skip(e).len() > 0);
    assert(es.skip(e)[0] == es[e]);
    lemma_ser_entries_front(es.skip(e));
    assert(es.skip(e).drop_first() =~~= es.skip(e + 1));
    let en = ser_entry(es[e]).len() as int;
    assert(ser_entry(es[e]) + (ser_entries(es.skip(e + 1)) + ser_child_part(nv)) =~= (ser_entry(
        es[e],
    ) + ser_entries(es.skip(e + 1))) + ser_child_part(nv));
    lemma_concat_split(s, j, b, ser_entry(es[e]), ser_entries(es.skip(e + 1)) + ser_child_part(nv));
    lemma_ser_entry_shape(es[e]);
    let l = es[e].leading.len() as int;
    assert(forall|k: int| j <= k < j + l ==> is_inline_ws(s[k])) by {
        assert(forall|k: int| j <= k < j + l ==> s.subrange(j, j + en)[k - j] == s[k]);
        assert(forall|k: int| 0 <= k < l ==> ser_entry(es[e])[k] == es[e].leading[k]);
    }
    assert(s[j + l] == ser_entry(es[e])[l]);
}

/// The character right after an aligned position inside a node's remainder
/// can only be inline whitespace, a brace, or a line end — never a name
/// character, an equals sign, or a quote.
proof fn lemma_hyp_after(s: Seq<char>, pos: int, b: int, nv: NodeV, e1: int)
    requires
        wf_node(nv),
        0 <= e1 <= nv.entries.len(),
        0 <= pos <= b <= s.len(),
        ser_entries(nv.entries.skip(e1)) + ser_child_part(nv) == s.subrange(pos, b),
        nv.children is None ==> line_break_ahead(s, b),
    ensures
        pos < s.len() ==> (is_inline_ws(s[pos]) || s[pos] == '\n' || s[pos] == '}' || s[pos]
            == '{'),
{
    if pos < s.len() {
        let se = ser_entries(nv.entries.skip(e1));
        let cp = ser_child_part(nv);
        if se.len() > 0 {
            assert(nv.entries.skip(e1).len() > 0) by {
                if nv.entries.skip(e1).len() == 0 {
                    assert(ser_entries(nv.entries.skip(e1)).len() == 0);
                }
            }
            lemma_ser_entries_front(nv.entries.skip(e1));
            lemma_ser_entry_shape(nv.entries.skip(e1)[0]);
            assert(wf_entry(nv.entries.skip(e1)[0]));
            assert((se + cp).len() == b - pos);
            assert(s.subrange(pos, b)[0] == s[pos]);
            assert(s[pos] == (se + cp)[0]);
            assert(se[0] == nv.entries.skip(e1)[0].leading[0]);
            assert(is_inline_ws(s[pos]));
        } else {
            match nv.children {
                Some(d) => {
                    assert((se + cp).len() == b - pos);
                    assert(s.subrange(pos, b)[0] == s[pos]);
                    assert(s[pos] == (se + cp)[0]);
                    assert((se + cp)[0] == cp[0]);
                    if nv.before_children.len() > 0 {
                        assert(cp[0] == nv.before_children[0]);
                        assert(is_inline_ws(s[pos]));
                    } else {
                        assert(cp[0] == '{');
                    }
                },
                None => {
                    assert(cp.len() == 0);
                    assert(pos == b);
                    lemma_break_char(s, b);
                },
            }
        }
    }
}

/// When the parser's inline scan from `j` stops at a line end, a closing
/// brace, or the end of the input, every aligned hypothetical node ends
/// exactly at `j` with no child block.
proof fn lemma_hyp_at_linebreak(s: Seq<char>, j: int, w: int, b: int, nv: NodeV, e: int)
    requires
        wf_node(nv),
        nv.children is None ==> line_break_ahead(s, b),
        0 <= j <= b <= s.len(),
        0 <= e <= nv.entries.len(),
        ser_entries(nv.entries.skip(e)) + ser_child_part(nv) == s.subrange(j, b),
        j <= w <= s.len(),
        forall|k: int| j <= k < w ==> is_inline_ws(s[k]),
        w == s.len() || s[w] == '\n' || s[w] == '}',
    ensures
        e == nv.entries.len(),
        nv.children is None,
        b == j,
{
    if e < nv.entries.len() {
        lemma_hyp_entry_decomp(s, j, b, nv, e);
        let l = nv.entries[e].leading.len() as int;
        lemma_inline_run_eq(s, j, w, j + l);
        assert(s[w] == '"' || is_name_char(s[w]));
        assert(false);
    }
    assert(nv.entries.skip(e).len() == 0) by {
        assert(nv.entries.skip(e) =~~= Seq::<EntryV>::empty());
    }
    match nv.children {
        Some(d) => {
            let cp = ser_child_part(nv);
            let bc = nv.before_children.len() as int;
            assert(cp == s.subrange(j, b)) by {
                assert(ser_entries(nv.entries.skip(e)).len() == 0);
                assert(ser_entries(nv.entries.skip(e)) + cp =~= cp);
            }
            assert((nv.before_children + seq!['{']) + (ser_doc(d) + seq!['}']) =~= cp);
            lemma_concat_split(s, j, b, nv.before_children + seq!['{'], ser_doc(d) + seq!['}']);
            assert forall|k: int| j <= k < j + bc implies is_inline_ws(s[k]) by {
                assert(s.subrange(j, b)[k - j] == s[k]);
                assert(cp[k - j] == (nv.before_children + seq!['{'])[k - j]);
                assert((nv.before_children + seq!['{'])[k - j] == nv.before_children[k - j]);
            }
            assert((nv.before_children + seq!['{'])[bc] == '{');
            assert(s.subrange(j, j + bc + 1)[bc] == s[j + bc]);
            assert(s[j + bc] == '{');
            assert(j + bc < s.len());
            lemma_inline_run_eq(s, j, w, j + bc);
            assert(false);
        },
        None => {
            assert(ser_entries(nv.entries.skip(e)) + ser_child_part(nv) =~= Seq::<char>::empty());
        },
    }
}

/// When the parser's inline scan from `j` stops at an opening brace, every
/// aligned hypothetical node has a child block there.
proof fn lemma_hyp_at_brace(s: Seq<char>, j: int, w: int, b: int, nv: NodeV, e: int)
    requires
        wf_node(nv),
        nv.children is None ==> line_break_ahead(s, b),
        0 <= j <= b <= s.len(),
        0 <= e <= nv.entries.len(),
        ser_entries(nv.entries.skip(e)) + ser_child_part(nv) == s.subrange(j, b),
        j <= w < s.len(),
        forall|k: int| j <= k < w ==> is_inline_ws(s[k]),
        s[w] == '{',
    ensures
        e == nv.entries.len(),
        nv.children is Some,
        nv.before_children == s.subrange(j, w),
        seq!['{'] + ser_doc(nv.children->Some_0) + seq!['}'] == s.subrange(w, b),
{
    if e < nv.entries.len() {
        lemma_hyp_entry_decomp(s, j, b, nv, e);
        let l = nv.entries[e].leading.len() as int;
        lemma_inline_run_eq(s, j, w, j + l);
        assert(s[w] == '"' || is_name_char(s[w]));
        assert(false);
    }
    assert(nv.entries.skip(e).len() == 0) by {
        assert(nv.entries.skip(e) =~~= Seq::<EntryV>::empty());
    }
    match nv.children {
        None => {
            assert(ser_entries(nv.entries.skip(e)) + ser_child_part(nv) =~= Seq::<char>::empty());
            assert(b == j);
            let m = choose|m: int| break_pos_ok(s, b, m);
            assert(break_pos_ok(s, b, m));
            if m < w {
                assert(is_inline_ws(s[m]));
                assert(m < s.len());
                assert(false);
            } else if m == w {
                assert(false);
            } else {
                assert(is_inline_ws(s[w]));
                assert(false);
            }
        },
        Some(d) => {
            let cp = ser_child_part(nv);
            let bc = nv.before_children.len() as int;
            assert(cp == s.subrange(j, b)) by {
                assert(ser_entries(nv.entries.skip(e)).len() == 0);
                assert(ser_entries(nv.entries.skip(e)) + cp =~= cp);
            }
            assert((nv.before_children + seq!['{']) + (ser_doc(d) + seq!['}']) =~= cp);
            lemma_concat_split(s, j, b, nv.before_children + seq!['{'], ser_doc(d) + seq!['}']);
            assert forall|k: int| j <= k < j + bc implies is_inline_ws(s[k]) by {
                assert(s.subrange(j, b)[k - j] == s[k]);
                assert(cp[k - j] == (nv.before_children + seq!['{'])[k - j]);
                assert((nv.before_children + seq!['{'])[k - j] == nv.before_children[k - j]);
            }
            assert((nv.before_children + seq!['{'])[bc] == '{');
            assert(s.subrange(j, j + bc + 1)[bc] == s[j + bc]);
            assert(s[j + bc] == '{');
            assert(j + bc < s.len());
            lemma_inline_run_eq(s, j, w, j + bc);
            assert(nv.before_children =~= s.subrange(j, w));
            assert(ser_doc(d) + seq!['}'] == s.subrange(w + 1, b));
            assert(seq!['{'] + ser_doc(d) + seq!['}'] =~= s.subrange(w, b)) by {
                assert((seq!['{'] + ser_doc(d) + seq!['}']).len() == b - w);
                assert forall|m: int| 0 <= m < b - w implies (seq!['{'] + ser_doc(d) + seq![
                    '}',
                ])[m] == s.subrange(w, b)[m] by {
                    if m == 0 {
                        assert(s.subrange(w, b)[0] == s[w]);
                    } else {
                        assert((seq!['{'] + ser_doc(d) + seq!['}'])[m] == (ser_doc(d) + seq![
                            '}',
                        ])[m - 1]);
                        assert(s.subrange(w + 1, b)[m - 1] == s[w + m]);
                        assert(s.subrange(w, b)[m] == s[w + m]);
                    }
                }
            }
        },
    }
}

/// A hypothetical node whose next entry starts exactly where the parser
/// stands: leading whitespace ends at `w`, the entry's serialization is the
/// next stretch of the text.
spec fn entry_at(s: Seq<char>, j: int, w: int, b: int, nv: NodeV, e: int) -> bool {
    &&& wf_node(nv)
    &&& (nv.children is None ==> line_break_ahead(s, b))
    &&& 0 <= e < nv.entries.len()
    &&& 0 <= j <= w < s.len()
    &&& b <= s.len()
    &&& nv.entries[e].leading.len() == w - j
    &&& j + ser_entry(nv.entries[e]).len() <= b
    &&& ser_entry(nv.entries[e]) == s.subrange(j, j + ser_entry(nv.entries[e]).len())
    &&& ser_entries(nv.entries.skip(e + 1)) + ser_child_part(nv) == s.subrange(
        j + ser_entry(nv.entries[e]).len(),
        b,
    )
}

/// When the parser's inline scan from `j` stops at anything but a line end,
/// a brace or the end of the input, every aligned hypothetical node has
/// another entry, starting exactly there.
proof fn lemma_hyp_at_entry(s: Seq<char>, j: int, w: int, b: int, nv: NodeV, e: int)
    requires
        wf_node(nv),
        nv.children is None ==> line_break_ahead(s, b),
        0 <= j <= b <= s.len(),
        0 <= e <= nv.entries.len(),
        ser_entries(nv.entries.skip(e)) + ser_child_part(nv) == s.subrange(j, b),
        j <= w < s.len(),
        forall|k: int| j <= k < w ==> is_inline_ws(s[k]),
        !is_inline_ws(s[w]),
        s[w] != '\n',
        s[w] != '}',
        s[w] != '{',
    ensures
        e < nv.entries.len(),
        entry_at(s, j, w, b, nv, e),
        s[w] == '"' || is_name_char(s[w]),
{
    if e == nv.entries.len() {
        assert(nv.entries.skip(e).len() == 0) by {
            assert(nv.entries.skip(e) =~~= Seq::<EntryV>::empty());
        }
        match nv.children {
            None => {
                assert(ser_entries(nv.entries.skip(e)) + ser_child_part(nv)
                    =~= Seq::<char>::empty());
                assert(b == j);
                let m = choose|m: int| break_pos_ok(s, b, m);
                assert(break_pos_ok(s, b, m));
                if m < w {
                    assert(is_inline_ws(s[m]));
                    assert(m < s.len());
                    assert(false);
                } else if m == w {
                    assert(false);
                } else {
                    assert(is_inline_ws(s[w]));
                    assert(false);
                }
            },
            Some(d) => {
                let cp = ser_child_part(nv);
                let bc = nv.before_children.len() as int;
                assert(cp == s.subrange(j, b)) by {
                    assert(ser_entries(nv.entries.skip(e)).len() == 0);
                    assert(ser_entries(nv.entries.skip(e)) + cp =~= cp);
                }
                assert((nv.before_children + seq!['{']) + (ser_doc(d) + seq!['}']) =~= cp);
                lemma_concat_split(
                    s,
                    j,
                    b,
                    nv.before_children + seq!['{'],
                    ser_doc(d) + seq!['}'],
                );
                assert forall|k: int| j <= k < j + bc implies is_inline_ws(s[k]) by {
                    assert(s.subrange(j, b)[k - j] == s[k]);
                    assert(cp[k - j] == (nv.before_children + seq!['{'])[k - j]);
                    assert((nv.before_children + seq!['{'])[k - j] == nv.before_children[k - j]);
                }
                assert((nv.before_children + seq!['{'])[bc] == '{');
                assert(s.subrange(j, j + bc + 1)[bc] == s[j + bc]);
                assert(s[j + bc] == '{');
                assert(j + bc < s.len());
                lemma_inline_run_eq(s, j, w, j + bc);
                assert(false);
            },
        }
    }
    lemma_hyp_entry_decomp(s, j, b, nv, e);
    let l = nv.entries[e].leading.len() as int;
    lemma_inline_run_eq(s, j, w, j + l);
}

/// An entry that opens with a name character and whose ident run stops at an
/// equals sign is a named entry with exactly that name.
proof fn lemma_hyp_forced_named(s: Seq<char>, j: int, w: int, b: int, nv: NodeV, e: int, id_end: int)
    requires
        entry_at(s, j, w, b, nv, e),
        is_name_char(s[w]),
        w <= id_end < s.len(),
        forall|k: int| w <= k < id_end ==> is_name_char(s[k]),
        s[id_end] == '=',
    ensures
        nv.entries[e].name is Some,
        nv.entries[e].name->Some_0.len() == id_end - w,
{
    let en0 = nv.entries[e];
    let en = ser_entry(en0).len() as int;
    let l = w - j;
    lemma_ser_entry_shape(en0);
    assert(s[w] == ser_entry(en0)[l]) by {
        assert(s.subrange(j, j + en)[l] == s[w]);
    }
    match en0.name {
        Some(nm) => {
            // the name run ends exactly at the equals sign
            assert forall|k: int| w <= k < w + nm.len() implies is_name_char(s[k]) by {
                assert(s[k] == ser_entry(en0)[k - j]) by {
                    assert(s.subrange(j, j + en)[k - j] == s[k]);
                }
                assert(ser_entry(en0)[k - j] == (nm + seq!['='])[k - w]) by {
                    assert(ser_entry(en0) == (en0.leading + (nm + seq!['='])) + ser_value(
                        en0.value,
                    ));
                }
                assert((nm + seq!['='])[k - w] == nm[k - w]);
            }
            assert(s[w + nm.len()] == '=') by {
                assert(ser_entry(en0) == (en0.leading + (nm + seq!['='])) + ser_value(
                    en0.value,
                ));
                assert(ser_entry(en0)[l + nm.len()] == (nm + seq!['='])[nm.len() as int]);
                assert(s.subrange(j, j + en)[l + nm.len()] == s[w + nm.len()]);
            }
            assert(!is_name_char(s[w + nm.len()]));
            assert(w + nm.len() < s.len()) by {
                assert(l + nm.len() < en);
            }
            lemma_name_run_eq(s, w, id_end, w + nm.len() as int);
        },
        None => {
            match en0.value {
                ValueV::Str(v) => {
                    assert(ser_entry(en0)[l] == '"');
                    assert(is_name_char('"'));
                },
                ValueV::Bare(v) => {
                    // a bare value run would end at a character that cannot
                    // be an equals sign
                    assert(en == l + v.len());
                    assert forall|k: int| w <= k < w + v.len() implies is_name_char(s[k]) by {
                        assert(s[k] == ser_entry(en0)[k - j]) by {
                            assert(s.subrange(j, j + en)[k - j] == s[k]);
                        }
                        assert(ser_entry(en0) == (en0.leading + Seq::<char>::empty())
                            + ser_value(en0.value));
                        assert(ser_entry(en0)[k - j] == v[k - w]);
                    }
                    lemma_hyp_after(s, j + en, b, nv, e + 1);
                    if j + en < s.len() {
                        assert(!is_name_char(s[j + en]));
                    }
                    lemma_name_run_eq(s, w, id_end, j + en);
                    assert(s[id_end] == '=');
                    assert(is_inline_ws(s[id_end]) || s[id_end] == '\n' || s[id_end] == '}'
                        || s[id_end] == '{');
                    assert(false);
                },
            }
        },
    }
}

/// A positional quoted entry ends right after the first closing quote.
proof fn lemma_hyp_kind_pos_str(s: Seq<char>, j: int, w: int, b: int, nv: NodeV, e: int, q: int)
    requires
        entry_at(s, j, w, b, nv, e),
        s[w] == '"',
        w + 1 <= q < s.len(),
        s[q] == '"',
        forall|k: int| w + 1 <= k < q ==> s[k] != '"',
    ensures
        ser_entry(nv.entries[e]).len() == q + 1 - j,
{
    let en0 = nv.entries[e];
    let en = ser_entry(en0).len() as int;
    let l = w - j;
    lemma_ser_entry_shape(en0);
    assert(s[w] == ser_entry(en0)[l]) by {
        assert(s.subrange(j, j + en)[l] == s[w]);
    }
    match en0.name {
        Some(nm) => {
            assert(ser_entry(en0)[l] == nm[0]);
            assert(is_name_char('"'));
            assert(false);
        },
        None => {},
    }
    match en0.value {
        ValueV::Bare(v) => {
            assert(ser_entry(en0) == (en0.leading + Seq::<char>::empty()) + ser_value(en0.value));
            assert(ser_entry(en0)[l] == v[0]);
            assert(is_name_char('"'));
            assert(false);
        },
        ValueV::Str(v) => {
            assert(ser_entry(en0) == (en0.leading + Seq::<char>::empty()) + ((seq!['"'] + v)
                + seq!['"']));
            assert(en == l + 2 + v.len());
            assert forall|k: int| w + 1 <= k < w + 1 + v.len() implies s[k] != '"' by {
                assert(s.subrange(j, j + en)[k - j] == s[k]);
                assert(ser_entry(en0)[k - j] == v[k - (w + 1)]);
                assert(!no_quote(v) || v[k - (w + 1)] != '"');
            }
            assert(s[w + 1 + v.len()] == '"') by {
                assert(ser_entry(en0)[l + 1 + v.len()] == '"');
                assert(s.subrange(j, j + en)[l + 1 + v.len()] == s[w + 1 + v.len()]);
            }
            assert(w + 1 + v.len() < s.len()) by {
                assert(l + 1 + v.len() < en);
            }
            lemma_noquote_run_eq(s, w + 1, q, w + 1 + v.len() as int);
        },
    }
}

/// A named quoted entry ends right after the first closing quote behind the
/// equals sign.
proof fn lemma_hyp_kind_named_str(
    s: Seq<char>,
    j: int,
    w: int,
    b: int,
    nv: NodeV,
    e: int,
    id_end: int,
    q: int,
)
    requires
        entry_at(s, j, w, b, nv, e),
        is_name_char(s[w]),
        w <= id_end < s.len(),
        forall|k: int| w <= k < id_end ==> is_name_char(s[k]),
        s[id_end] == '=',
        id_end + 1 < s.len(),
        s[id_end + 1] == '"',
        id_end + 2 <= q < s.len(),
        s[q] == '"',
        forall|k: int| id_end + 2 <= k < q ==> s[k] != '"',
    ensures
        ser_entry(nv.entries[e]).len() == q + 1 - j,
{
    lemma_hyp_forced_named(s, j, w, b, nv, e, id_end);
    let en0 = nv.entries[e];
    let en = ser_entry(en0).len() as int;
    let l = w - j;
    let nm = en0.name->Some_0;
    match en0.value {
        ValueV::Bare(v) => {
            assert(ser_entry(en0) == (en0.leading + (nm + seq!['='])) + v);
            assert(s[id_end + 1] == v[0]) by {
                assert(ser_entry(en0)[l + nm.len() + 1] == v[0]);
                assert(s.subrange(j, j + en)[l + nm.len() + 1] == s[id_end + 1]);
            }
            assert(is_name_char(v[0]));
            assert(is_name_char('"'));
            assert(false);
        },
        ValueV::Str(v) => {
            assert(ser_entry(en0) == (en0.leading + (nm + seq!['='])) + ((seq!['"'] + v)
                + seq!['"']));
            assert(en == l + nm.len() + 1 + 2 + v.len());
            assert forall|k: int| id_end + 2 <= k < id_end + 2 + v.len() implies s[k] != '"' by {
                assert(s.subrange(j, j + en)[k - j] == s[k]);
                assert(ser_entry(en0)[k - j] == v[k - (id_end + 2)]);
            }
            assert(s[id_end + 2 + v.len()] == '"') by {
                assert(ser_entry(en0)[l + nm.len() + 2 + v.len()] == '"');
                assert(s.subrange(j, j + en)[l + nm.len() + 2 + v.len()] == s[id_end + 2
                    + v.len()]);
            }
            assert(id_end + 2 + v.len() < s.len()) by {
                assert(l + nm.len() + 2 + v.len() < en);
            }
            lemma_noquote_run_eq(s, id_end + 2, q, id_end + 2 + v.len() as int);
        },
    }
}

/// A named bare entry ends at the end of its value's ident run.
proof fn lemma_hyp_kind_named_bare(
    s: Seq<char>,
    j: int,
    w: int,
    b: int,
    nv: NodeV,
    e: int,
    id_end: int,
    v_end: int,
)
    requires
        entry_at(s, j, w, b, nv, e),
        is_name_char(s[w]),
        w <= id_end < s.len(),
        forall|k: int| w <= k < id_end ==> is_name_char(s[k]),
        s[id_end] == '=',
        id_end + 1 < s.len() ==> s[id_end + 1] != '"',
        id_end + 1 <= v_end <= s.len(),
        forall|k: int| id_end + 1 <= k < v_end ==> is_name_char(s[k]),
        v_end < s.len() ==> !is_name_char(s[v_end]),
    ensures
        ser_entry(nv.entries[e]).len() == v_end - j,
{
    lemma_hyp_forced_named(s, j, w, b, nv, e, id_end);
    let en0 = nv.entries[e];
    let en = ser_entry(en0).len() as int;
    let l = w - j;
    let nm = en0.name->Some_0;
    match en0.value {
        ValueV::Str(v) => {
            assert(ser_entry(en0) == (en0.leading + (nm + seq!['='])) + ((seq!['"'] + v)
                + seq!['"']));
            assert(s[id_end + 1] == '"') by {
                assert(ser_entry(en0)[l + nm.len() + 1] == '"');
                assert(s.subrange(j, j + en)[l + nm.len() + 1] == s[id_end + 1]);
            }
            assert(id_end + 1 < s.len()) by {
                assert(l + nm.len() + 1 < en);
            }
            assert(false);
        },
        ValueV::Bare(v) => {
            assert(ser_entry(en0) == (en0.leading + (nm + seq!['='])) + v);
            assert(en == l + nm.len() + 1 + v.len());
            assert forall|k: int| id_end + 1 <= k < id_end + 1 + v.len() implies is_name_char(
                s[k],
            ) by {
                assert(s.subrange(j, j + en)[k - j] == s[k]);
                assert(ser_entry(en0)[k - j] == v[k - (id_end + 1)]);
            }
            lemma_hyp_after(s, j + en, b, nv, e + 1);
            if j + en < s.len() {
                assert(!is_name_char(s[j + en]));
            }
            lemma_name_run_eq(s, id_end + 1, v_end, id_end + 1 + v.len() as int);
        },
    }
}

/// A positional bare entry ends at the end of its ident run.
proof fn lemma_hyp_kind_pos_bare(
    s: Seq<char>,
    j: int,
    w: int,
    b: int,
    nv: NodeV,
    e: int,
    id_end: int,
)
    requires
        entry_at(s, j, w, b, nv, e),
        is_name_char(s[w]),
        w <= id_end <= s.len(),
        forall|k: int| w <= k < id_end ==> is_name_char(s[k]),
        id_end < s.len() ==> !is_name_char(s[id_end]),
        id_end < s.len() ==> s[id_end] != '=',
    ensures
        ser_entry(nv.entries[e]).len() == id_end - j,
{
    let en0 = nv.entries[e];
    let en = ser_entry(en0).len() as int;
    let l = w - j;
    lemma_ser_entry_shape(en0);
    assert(s[w] == ser_entry(en0)[l]) by {
        assert(s.subrange(j, j + en)[l] == s[w]);
    }
    match en0.name {
        Some(nm) => {
            assert forall|k: int| w <= k < w + nm.len() implies is_name_char(s[k]) by {
                assert(s[k] == ser_entry(en0)[k - j]) by {
                    assert(s.subrange(j, j + en)[k - j] == s[k]);
                }
                assert(ser_entry(en0) == (en0.leading + (nm + seq!['='])) + ser_value(
                    en0.value,
                ));
                assert(ser_entry(en0)[k - j] == (nm + seq!['='])[k - w]);
                assert((nm + seq!['='])[k - w] == nm[k - w]);
            }
            assert(s[w + nm.len()] == '=') by {
                assert(ser_entry(en0) == (en0.leading + (nm + seq!['='])) + ser_value(
                    en0.value,
                ));
                assert(ser_entry(en0)[l + nm.len()] == (nm + seq!['='])[nm.len() as int]);
                assert(s.subrange(j, j + en)[l + nm.len()] == s[w + nm.len()]);
            }
            assert(w + nm.len() < s.len()) by {
                assert(l + nm.len() < en);
            }
            assert(!is_name_char('='));
            lemma_name_run_eq(s, w, id_end, w + nm.len() as int);
            assert(false);
        },
        None => {},
    }
    match en0.value {
        ValueV::Str(v) => {
            assert(ser_entry(en0)[l] == '"');
            assert(is_name_char('"'));
            assert(false);
        },
        ValueV::Bare(v) => {
            assert(ser_entry(en0) == (en0.leading + Seq::<char>::empty()) + v);
            assert(en == l + v.len());
            assert forall|k: int| w <= k < w + v.len() implies is_name_char(s[k]) by {
                assert(s.subrange(j, j + en)[k - j] == s[k]);
                assert(ser_entry(en0)[k - j] == v[k - w]);
            }
            lemma_hyp_after(s, j + en, b, nv, e + 1);
            if j + en < s.len() {
                assert(!is_name_char(s[j + en]));
            }
            lemma_name_run_eq(s, w, id_end, j + en);
        },
    }
}

/// An entry that opens with a quote closes it within the text.
proof fn lemma_hyp_close_exists_pos(s: Seq<char>, j: int, w: int, b: int, nv: NodeV, e: int)
    requires
        entry_at(s, j, w, b, nv, e),
        s[w] == '"',
    ensures
        exists|k: int| w + 1 <= k < s.len() && s[k] == '"',
{
    let en0 = nv.entries[e];
    let en = ser_entry(en0).len() as int;
    let l = w - j;
    lemma_ser_entry_shape(en0);
    assert(s[w] == ser_entry(en0)[l]) by {
        assert(s.subrange(j, j + en)[l] == s[w]);
    }
    match en0.name {
        Some(nm) => {
            assert(ser_entry(en0)[l] == nm[0]);
            assert(is_name_char('"'));
        },
        None => {
            match en0.value {
                ValueV::Bare(v) => {
                    assert(ser_entry(en0) == (en0.leading + Seq::<char>::empty()) + ser_value(
                        en0.value,
                    ));
                    assert(ser_entry(en0)[l] == v[0]);
                    assert(is_name_char('"'));
                },
                ValueV::Str(v) => {
                    assert(ser_entry(en0) == (en0.leading + Seq::<char>::empty()) + ((seq!['"']
                        + v) + seq!['"']));
                    assert(s[w + 1 + v.len()] == '"') by {
                        assert(ser_entry(en0)[l + 1 + v.len()] == '"');
                        assert(s.subrange(j, j + en)[l + 1 + v.len()] == s[w + 1 + v.len()]);
                    }
                    assert(w + 1 + v.len() < s.len()) by {
                        assert(l + 1 + v.len() < en);
                    }
                    assert(w + 1 <= w + 1 + v.len() < s.len() && s[w + 1 + v.len()] == '"');
                },
            }
        },
    }
}

/// So does a named entry's quoted value.
proof fn lemma_hyp_close_exists_named(
    s: Seq<char>,
    j: int,
    w: int,
    b: int,
    nv: NodeV,
    e: int,
    id_end: int,
)
    requires
        entry_at(s, j, w, b, nv, e),
        is_name_char(s[w]),
        w <= id_end < s.len(),
        forall|k: int| w <= k < id_end ==> is_name_char(s[k]),
        s[id_end] == '=',
        id_end + 1 < s.len(),
        s[id_end + 1] == '"',
    ensures
        exists|k: int| id_end + 2 <= k < s.len() && s[k] == '"',
{
    lemma_hyp_forced_named(s, j, w, b, nv, e, id_end);
    let en0 = nv.entries[e];
    let en = ser_entry(en0).len() as int;
    let l = w - j;
    let nm = en0.name->Some_0;
    match en0.value {
        ValueV::Bare(v) => {
            assert(ser_entry(en0) == (en0.leading + (nm + seq!['='])) + v);
            assert(s[id_end + 1] == v[0]) by {
                assert(ser_entry(en0)[l + nm.len() + 1] == v[0]);
                assert(s.subrange(j, j + en)[l + nm.len() + 1] == s[id_end + 1]);
            }
            assert(is_name_char('"'));
        },
        ValueV::Str(v) => {
            assert(ser_entry(en0) == (en0.leading + (nm + seq!['='])) + ((seq!['"'] + v)
                + seq!['"']));
            assert(s[id_end + 2 + v.len()] == '"') by {
                assert(ser_entry(en0)[l + nm.len() + 2 + v.len()] == '"');
                assert(s.subrange(j, j + en)[l + nm.len() + 2 + v.len()] == s[id_end + 2
                    + v.len()]);
            }
            assert(id_end + 2 + v.len() < s.len()) by {
                assert(l + nm.len() + 2 + v.len() < en);
            }
            assert(id_end + 2 <= id_end + 2 + v.len() < s.len() && s[id_end + 2 + v.len()]
                == '"');
        },
    }
}

/// A named entry's value is never empty.
proof fn lemma_hyp_bare_nonempty(s: Seq<char>, j: int, w: int, b: int, nv: NodeV, e: int, id_end: int)
    requires
        entry_at(s, j, w, b, nv, e),
        is_name_char(s[w]),
        w <= id_end < s.len(),
        forall|k: int| w <= k < id_end ==> is_name_char(s[k]),
        s[id_end] == '=',
        id_end + 1 < s.len() ==> s[id_end + 1] != '"',
    ensures
        id_end + 1 < s.len() && is_name_char(s[id_end + 1]),
{
    lemma_hyp_forced_named(s, j, w, b, nv, e, id_end);
    let en0 = nv.entries[e];
    let en = ser_entry(en0).len() as int;
    let l = w - j;
    let nm = en0.name->Some_0;
    assert(id_end == w + nm.len());
    match en0.value {
        ValueV::Str(v) => {
            assert(ser_entry(en0) == (en0.leading + (nm + seq!['='])) + ((seq!['"'] + v)
                + seq!['"']));
            assert(s[id_end + 1] == '"') by {
                assert(ser_entry(en0)[l + nm.len() + 1] == '"');
                assert(s.subrange(j, j + en)[l + nm.len() + 1] == s[id_end + 1]);
            }
            assert(id_end + 1 < s.len()) by {
                assert(l + nm.len() + 1 < en);
            }
        },
        ValueV::Bare(v) => {
            assert(ser_entry(en0) == (en0.leading + (nm + seq!['='])) + v);
            assert(s[id_end + 1] == v[0]) by {
                assert(ser_entry(en0)[l + nm.len() + 1] == v[0]);
                assert(s.subrange(j, j + en)[l + nm.len() + 1] == s[id_end + 1]);
            }
            assert(id_end + 1 < s.len()) by {
                assert(l + nm.len() + 1 < en);
            }
            assert(is_name_char(v[0]));
        },
    }
}

/// Parses one node up to (but not including) a child block: leading
/// whitespace, name and entries. Reports whether it stopped at an opening
/// brace; a node without a block ends at a line end, a closing brace or the
/// end of the input.
#[verifier::rlimit(100)]
fn parse_node_head(s: &str, n: usize, lead_start: usize, name_start: usize) -> (r: Option<
    (Node, usize, bool),
>)
    requires
        n == s@.len(),
        lead_start <= name_start < n,
        forall|k: int| lead_start <= k < name_start ==> is_ws(s@[k]),
        is_name_char(s@[name_start as int]),
    ensures
        r matches Some(res) ==> {
            let nv = node_view(res.0);
            &&& name_start < res.1 <= n
            &&& nv.children is None
            &&& nv.leading == s@.subrange(lead_start as int, name_start as int)
            &&& all_ws(nv.leading)
            &&& valid_name(nv.name)
            &&& (forall|i: int| 0 <= i < nv.entries.len() ==> wf_entry(#[trigger] nv.entries[i]))
            &&& (res.2 ==> res.1 < n && s@[res.1 as int] == '{' && all_inline_ws(
                nv.before_children,
            ) && nv.leading + nv.name + ser_entries(nv.entries) + nv.before_children
                == s@.subrange(lead_start as int, res.1 as int))
            &&& (!res.2 ==> nv.before_children.len() == 0 && ser_node(nv) == s@.subrange(
                lead_start as int,
                res.1 as int,
            ) && line_break_ahead(s@, res.1 as int))
        },
        r is None ==> forall|hv: NodeV, hb: int| !node_hyp(s@, lead_start as int, hb, hv),
        r matches Some(res) ==> forall|hv: NodeV, hb: int|
            node_hyp(s@, lead_start as int, hb, hv) ==> ({
                &&& (res.2 ==> hv.children is Some && hv.leading + hv.name + ser_entries(
                    hv.entries,
                ) + hv.before_children == s@.subrange(lead_start as int, res.1 as int))
                &&& (!res.2 ==> hv.children is None && hb == res.1)
            }),
{
    let name_end = scan_name(s, name_start, n);
    assert(name_end > name_start) by {
        if name_end == name_start {
            assert(!is_name_char(s@[name_start as int]));
        }
    }
    let leading = String::from_str(s.substring_char(lead_start, name_start));
    let name = String::from_str(s.substring_char(name_start, name_end));
    assert(valid_name(name@));
    let mut entries: Vec<Entry> = Vec::new();
    let mut j = name_end;
    proof {
        assert(entries_view(entries@) =~~= Seq::<EntryV>::empty());
        assert(leading@ + name@ + ser_entries(entries_view(entries@)) =~= s@.subrange(
            lead_start as int,
            j as int,
        ));
        assert forall|hv: NodeV, hb: int|
            node_hyp(s@, lead_start as int, hb, hv) implies (hv.leading == s@.subrange(
            lead_start as int,
            name_start as int,
        ) && hv.name == s@.subrange(name_start as int, name_end as int) && exists|e: int|
            hyp_entry_state(s@, name_end as int, j as int, hb, hv, e)) by {
            lemma_hyp_head_init(
                s@,
                lead_start as int,
                name_start as int,
                name_end as int,
                hb,
                hv,
            );
        }
        assert(head_aligned(
            s@,
            lead_start as int,
            name_start as int,
            name_end as int,
            j as int,
        ));
    }
    loop
        invariant
            n == s@.len(),
            lead_start <= name_start < name_end <= j <= n,
            leading@ == s@.subrange(lead_start as int, name_start as int),
            name@ == s@.subrange(name_start as int, name_end as int),
            all_ws(leading@),
            valid_name(name@),
            forall|i: int|
                0 <= i < entries_view(entries@).len() ==> wf_entry(
                    #[trigger] entries_view(entries@)[i],
                ),
            leading@ + name@ + ser_entries(entries_view(entries@)) == s@.subrange(
                lead_start as int,
                j as int,
            ),
            head_aligned(s@, lead_start as int, name_start as int, name_end as int, j as int),
        decreases n - j,
    {
        let ghost ev = entries_view(entries@);
        let w = scan_inline_ws(s, j, n);
        if w == n {
            let node = Node {
                leading,
                name,
                entries,
                before_children: String::new(),
                children: None,
            };
            assert(ser_node(node_view(node)) =~= s@.subrange(lead_start as int, j as int));
            assert(line_break_ahead(s@, j as int)) by {
                assert(break_pos_ok(s@, j as int, n as int));
            }
            proof {
                assert forall|hv: NodeV, hb: int|
                    node_hyp(s@, lead_start as int, hb, hv) implies (hv.children is None && hb
                    == j as int) by {
                    let e = choose|e: int|
                        hyp_entry_state(s@, name_end as int, j as int, hb, hv, e);
                    lemma_hyp_at_linebreak(s@, j as int, w as int, hb, hv, e);
                }
            }
            return Some((node, j, false));
        }
        let c = s.get_char(w);
        if c == '\n' || c == '}' {
            let node = Node {
                leading,
                name,
                entries,
                before_children: String::new(),
                children: None,
            };
            assert(ser_node(node_view(node)) =~= s@.subrange(lead_start as int, j as int));
            assert(line_break_ahead(s@, j as int)) by {
                assert(break_pos_ok(s@, j as int, w as int));
            }
            proof {
                assert forall|hv: NodeV, hb: int|
                    node_hyp(s@, lead_start as int, hb, hv) implies (hv.children is None && hb
                    == j as int) by {
                    let e = choose|e: int|
                        hyp_entry_state(s@, name_end as int, j as int, hb, hv, e);
                    lemma_hyp_at_linebreak(s@, j as int, w as int, hb, hv, e);
                }
            }
            return Some((node, j, false));
        }
        if c == '{' {
            let before = String::from_str(s.substring_char(j, w));
            let node = Node { leading, name, entries, before_children: before, children: None };
            assert(node_view(node).leading + node_view(node).name + ser_entries(
                node_view(node).entries,
            ) + node_view(node).before_children =~= s@.subrange(lead_start as int, w as int));
            proof {
                assert forall|hv: NodeV, hb: int|
                    node_hyp(s@, lead_start as int, hb, hv) implies (hv.children is Some
                    && hv.leading + hv.name + ser_entries(hv.entries) + hv.before_children
                    == s@.subrange(lead_start as int, w as int)) by {
                    let e = choose|e: int|
                        hyp_entry_state(s@, name_end as int, j as int, hb, hv, e);
                    lemma_hyp_at_brace(s@, j as int, w as int, hb, hv, e);
                    assert(hv.entries.take(e) =~~= hv.entries);
                    assert(ser_entries(hv.entries) == s@.subrange(name_end as int, j as int));
                    assert(hv.leading + hv.name + ser_entries(hv.entries) + hv.before_children
                        =~= s@.subrange(lead_start as int, w as int));
                }
            }
            return Some((node, w, true));
        }
        if w == j {
            // an entry must be separated from what precedes it
            proof {
                assert forall|hv: NodeV, hb: int|
                    !node_hyp(s@, lead_start as int, hb, hv) by {
                    if node_hyp(s@, lead_start as int, hb, hv) {
                        let e = choose|e: int|
                            hyp_entry_state(s@, name_end as int, j as int, hb, hv, e);
                        lemma_hyp_at_entry(s@, j as int, w as int, hb, hv, e);
                        assert(wf_entry(hv.entries[e]));
                        assert(hv.entries[e].leading.len() == 0);
                        assert(false);
                    }
                }
            }
            return None;
        }
        if c == '=' {
            proof {
                assert forall|hv: NodeV, hb: int|
                    !node_hyp(s@, lead_start as int, hb, hv) by {
                    if node_hyp(s@, lead_start as int, hb, hv) {
                        let e = choose|e: int|
                            hyp_entry_state(s@, name_end as int, j as int, hb, hv, e);
                        lemma_hyp_at_entry(s@, j as int, w as int, hb, hv, e);
                        assert(s@[w as int] == '"' || is_name_char(s@[w as int]));
                        assert(false);
                    }
                }
            }
            return None;
        }
        let lead_e = String::from_str(s.substring_char(j, w));
        assert(lead_e@.len() > 0 && all_inline_ws(lead_e@));
        let entry: Entry;
        let j2: usize;
        if c == '"' {
            match scan_to_quote(s, w + 1, n) {
                None => {
                    proof {
                        assert forall|hv: NodeV, hb: int|
                            !node_hyp(s@, lead_start as int, hb, hv) by {
                            if node_hyp(s@, lead_start as int, hb, hv) {
                                let e = choose|e: int|
                                    hyp_entry_state(s@, name_end as int, j as int, hb, hv, e);
                                lemma_hyp_at_entry(s@, j as int, w as int, hb, hv, e);
                                lemma_hyp_close_exists_pos(s@, j as int, w as int, hb, hv, e);
                                let k = choose|k: int|
                                    w + 1 <= k < s@.len() && s@[k] == '"';
                                assert(s@[k] != '"');
                            }
                        }
                    }
                    return None;
                },
                Some(q) => {
                    entry = Entry {
                        leading: lead_e,
                        name: None,
                        value: Value::Str(String::from_str(s.substring_char(w + 1, q))),
                    };
                    j2 = q + 1;
                    assert(ser_entry(entry_view(entry)) =~= s@.subrange(j as int, j2 as int));
                    proof {
                        assert forall|hv: NodeV, hb: int|
                            node_hyp(s@, lead_start as int, hb, hv) implies exists|e2: int|
                            hyp_entry_state(s@, name_end as int, j2 as int, hb, hv, e2) by {
                            let e = choose|e: int|
                                hyp_entry_state(s@, name_end as int, j as int, hb, hv, e);
                            lemma_hyp_at_entry(s@, j as int, w as int, hb, hv, e);
                            lemma_hyp_kind_pos_str(s@, j as int, w as int, hb, hv, e, q as int);
                            assert(hv.entries.take(e + 1).drop_last() =~~= hv.entries.take(e));
                            assert(hv.entries.take(e + 1).last() == hv.entries[e]);
                            assert(ser_entries(hv.entries.take(e + 1)) == ser_entries(
                                hv.entries.take(e),
                            ) + ser_entry(hv.entries[e]));
                            assert(ser_entries(hv.entries.take(e + 1)) =~= s@.subrange(
                                name_end as int,
                                j2 as int,
                            ));
                            assert(hyp_entry_state(s@, name_end as int, j2 as int, hb, hv, e + 1));
                        }
                        assert(head_aligned(
                            s@,
                            lead_start as int,
                            name_start as int,
                            name_end as int,
                            j2 as int,
                        ));
                    }
                },
            }
        } else {
            assert(is_name_char(s@[w as int]));
            let id_end = scan_name(s, w, n);
            assert(id_end > w) by {
                if id_end == w {
                    assert(!is_name_char(s@[w as int]));
                }
            }
            if id_end < n && s.get_char(id_end) == '=' {
                if id_end + 1 < n && s.get_char(id_end + 1) == '"' {
                    match scan_to_quote(s, id_end + 2, n) {
                        None => {
                            proof {
                                assert forall|hv: NodeV, hb: int|
                                    !node_hyp(s@, lead_start as int, hb, hv) by {
                                    if node_hyp(s@, lead_start as int, hb, hv) {
                                        let e = choose|e: int|
                                            hyp_entry_state(
                                                s@,
                                                name_end as int,
                                                j as int,
                                                hb,
                                                hv,
                                                e,
                                            );
                                        lemma_hyp_at_entry(s@, j as int, w as int, hb, hv, e);
                                        lemma_hyp_close_exists_named(
                                            s@,
                                            j as int,
                                            w as int,
                                            hb,
                                            hv,
                                            e,
                                            id_end as int,
                                        );
                                        let k = choose|k: int|
                                            id_end + 2 <= k < s@.len() && s@[k] == '"';
                                        assert(s@[k] != '"');
                                    }
                                }
                            }
                            return None;
                        },
                        Some(q) => {
                            entry = Entry {
                                leading: lead_e,
                                name: Some(String::from_str(s.substring_char(w, id_end))),
                                value: Value::Str(
                                    String::from_str(s.substring_char(id_end + 2, q)),
                                ),
                            };
                            j2 = q + 1;
                            assert(ser_entry(entry_view(entry)) =~= s@.subrange(
                                j as int,
                                j2 as int,
                            ));
                            proof {
                                assert forall|hv: NodeV, hb: int|
                                    node_hyp(s@, lead_start as int, hb, hv) implies exists|e2: int|
                                    hyp_entry_state(
                                        s@,
                                        name_end as int,
                                        j2 as int,
                                        hb,
                                        hv,
                                        e2,
                                    ) by {
                                    let e = choose|e: int|
                                        hyp_entry_state(s@, name_end as int, j as int, hb, hv, e);
                                    lemma_hyp_at_entry(s@, j as int, w as int, hb, hv, e);
                                    lemma_hyp_kind_named_str(
                                        s@,
                                        j as int,
                                        w as int,
                                        hb,
                                        hv,
                                        e,
                                        id_end as int,
                                        q as int,
                                    );
                                    assert(hv.entries.take(e + 1).drop_last() =~~= hv.entries.take(
                                        e,
                                    ));
                                    assert(hv.entries.take(e + 1).last() == hv.entries[e]);
                                    assert(ser_entries(hv.entries.take(e + 1)) == ser_entries(
                                        hv.entries.take(e),
                                    ) + ser_entry(hv.entries[e]));
                                    assert(ser_entries(hv.entries.take(e + 1)) =~= s@.subrange(
                                        name_end as int,
                                        j2 as int,
                                    ));
                                    assert(hyp_entry_state(
                                        s@,
                                        name_end as int,
                                        j2 as int,
                                        hb,
                                        hv,
                                        e + 1,
                                    ));
                                }
                                assert(head_aligned(
                                    s@,
                                    lead_start as int,
                                    name_start as int,
                                    name_end as int,
                                    j2 as int,
                                ));
                            }
                        },
                    }
                } else {
                    let v_end = scan_name(s, id_end + 1, n);
                    if v_end == id_end + 1 {
                        proof {
                            assert forall|hv: NodeV, hb: int|
                                !node_hyp(s@, lead_start as int, hb, hv) by {
                                if node_hyp(s@, lead_start as int, hb, hv) {
                                    let e = choose|e: int|
                                        hyp_entry_state(s@, name_end as int, j as int, hb, hv, e);
                                    lemma_hyp_at_entry(s@, j as int, w as int, hb, hv, e);
                                    lemma_hyp_bare_nonempty(
                                        s@,
                                        j as int,
                                        w as int,
                                        hb,
                                        hv,
                                        e,
                                        id_end as int,
                                    );
                                    assert(!is_name_char(s@[id_end + 1]));
                                }
                            }
                        }
                        return None;
                    }
                    entry = Entry {
                        leading: lead_e,
                        name: Some(String::from_str(s.substring_char(w, id_end))),
                        value: Value::Bare(String::from_str(s.substring_char(id_end + 1, v_end))),
                    };
                    j2 = v_end;
                    assert(ser_entry(entry_view(entry)) =~= s@.subrange(j as int, j2 as int));
                    proof {
                        assert forall|hv: NodeV, hb: int|
                            node_hyp(s@, lead_start as int, hb, hv) implies exists|e2: int|
                            hyp_entry_state(s@, name_end as int, j2 as int, hb, hv, e2) by {
                            let e = choose|e: int|
                                hyp_entry_state(s@, name_end as int, j as int, hb, hv, e);
                            lemma_hyp_at_entry(s@, j as int, w as int, hb, hv, e);
                            lemma_hyp_kind_named_bare(
                                s@,
                                j as int,
                                w as int,
                                hb,
                                hv,
                                e,
                                id_end as int,
                                v_end as int,
                            );
                            assert(hv.entries.take(e + 1).drop_last() =~~= hv.entries.take(e));
                            assert(hv.entries.take(e + 1).last() == hv.entries[e]);
                            assert(ser_entries(hv.entries.take(e + 1)) == ser_entries(
                                hv.entries.take(e),
                            ) + ser_entry(hv.entries[e]));
                            assert(ser_entries(hv.entries.take(e + 1)) =~= s@.subrange(
                                name_end as int,
                                j2 as int,
                            ));
                            assert(hyp_entry_state(s@, name_end as int, j2 as int, hb, hv, e + 1));
                        }
                        assert(head_aligned(
                            s@,
                            lead_start as int,
                            name_start as int,
                            name_end as int,
                            j2 as int,
                        ));
                    }
                }
            } else {
                entry = Entry {
                    leading: lead_e,
                    name: None,
                    value: Value::Bare(String::from_str(s.substring_char(w, id_end))),
                };
                j2 = id_end;
                assert(ser_entry(entry_view(entry)) =~= s@.subrange(j as int, j2 as int));
                proof {
                    assert forall|hv: NodeV, hb: int|
                        node_hyp(s@, lead_start as int, hb, hv) implies exists|e2: int|
                        hyp_entry_state(s@, name_end as int, j2 as int, hb, hv, e2) by {
                        let e = choose|e: int|
                            hyp_entry_state(s@, name_end as int, j as int, hb, hv, e);
                        lemma_hyp_at_entry(s@, j as int, w as int, hb, hv, e);
                        lemma_hyp_kind_pos_bare(
                            s@,
                            j as int,
                            w as int,
                            hb,
                            hv,
                            e,
                            id_end as int,
                        );
                        assert(hv.entries.take(e + 1).drop_last() =~~= hv.entries.take(e));
                        assert(hv.entries.take(e + 1).last() == hv.entries[e]);
                        assert(ser_entries(hv.entries.take(e + 1)) == ser_entries(
                            hv.entries.take(e),
                        ) + ser_entry(hv.entries[e]));
                        assert(ser_entries(hv.entries.take(e + 1)) =~= s@.subrange(
                            name_end as int,
                            j2 as int,
                        ));
                        assert(hyp_entry_state(s@, name_end as int, j2 as int, hb, hv, e + 1));
                    }
                    assert(head_aligned(
                        s@,
                        lead_start as int,
                        name_start as int,
                        name_end as int,
                        j2 as int,
                    ));
                }
            }
        }
        assert(wf_entry(entry_view(entry)));
        let ghost e_v = entry_view(entry);
        entries.push(entry);
        proof {
            assert(entries_view(entries@) =~~= ev.push(e_v));
            assert(entries_view(entries@).drop_last() =~~= ev);
            assert(ser_entries(entries_view(entries@)) == ser_entries(ev) + ser_entry(e_v));
            assert((leading@ + name@ + ser_entries(ev)) + ser_entry(e_v) =~= s@.subrange(
                lead_start as int,
                j2 as int,
            ));
            assert(leading@ + name@ + ser_entries(entries_view(entries@)) =~= (leading@ + name@
                + ser_entries(ev)) + ser_entry(e_v));
            assert(leading@ + name@ + ser_entries(entries_view(entries@)) == s@.subrange(
                lead_start as int,
                j2 as int,
            ));
        }
        j = j2;
    }
}

/// The node-list loop's alignment with a hypothetical document: the nodes
/// past `e` and the trailing whitespace serialize the text from `cur` on.
spec fn doc_state(s: Seq<char>, cur: int, j: int, dv: DocV, e: int) -> bool {
    &&& 0 <= e <= dv.nodes.len()
    &&& 0 <= cur <= j <= s.len()
    &&& ser_nodes(dv.nodes.skip(e)) + dv.trailing == s.subrange(cur, j)
}

/// A hypothetical document whose nodes are exhausted leaves only whitespace.
proof fn lemma_doc_state_tail(s: Seq<char>, cur: int, j: int, dv: DocV)
    requires
        wf_doc(dv),
        doc_state(s, cur, j, dv, dv.nodes.len() as int),
    ensures
        forall|k: int| cur <= k < j ==> is_ws(s[k]),
{
    assert(dv.nodes.skip(dv.nodes.len() as int) =~~= Seq::<NodeV>::empty());
    assert(ser_nodes(dv.nodes.skip(dv.nodes.len() as int)).len() == 0);
    assert(dv.trailing == s.subrange(cur, j)) by {
        assert(ser_nodes(dv.nodes.skip(dv.nodes.len() as int)) + dv.trailing =~= dv.trailing);
    }
    assert forall|k: int| cur <= k < j implies is_ws(s[k]) by {
        assert(s.subrange(cur, j)[k - cur] == s[k]);
        assert(is_ws(dv.trailing[k - cur]));
    }
}

/// A hypothetical document with nodes left aligns its next node with the
/// text at `cur`, as a node hypothesis.
proof fn lemma_doc_state_node(s: Seq<char>, cur: int, j: int, dv: DocV, e: int, top: bool)
    requires
        wf_doc(dv),
        doc_state(s, cur, j, dv, e),
        e < dv.nodes.len(),
        if top {
            j == s.len()
        } else {
            j < s.len() && s[j] == '}'
        },
    ensures
        ({
            let nv = dv.nodes[e];
            let b = cur + ser_node(nv).len();
            &&& node_hyp(s, cur, b, nv)
            &&& b <= j
            &&& ser_nodes(dv.nodes.skip(e + 1)) + dv.trailing == s.subrange(b, j)
        }),
{
    let nv = dv.nodes[e];
    let b = cur + ser_node(nv).len();
    assert(dv.nodes.skip(e).len() > 0);
    assert(dv.nodes.skip(e)[0] == nv);
    lemma_ser_nodes_front(dv.nodes.skip(e));
    assert(dv.nodes.skip(e).drop_first() =~~= dv.nodes.skip(e + 1));
    assert((ser_node(nv) + ser_nodes(dv.nodes.skip(e + 1))) + dv.trailing =~= ser_node(nv) + (
    ser_nodes(dv.nodes.skip(e + 1)) + dv.trailing));
    lemma_concat_split(s, cur, j, ser_node(nv), ser_nodes(dv.nodes.skip(e + 1)) + dv.trailing);
    assert(wf_node(nv));
    if nv.children is None {
        // a line break follows: in the next node's leading whitespace, or in
        // the trailing whitespace, or the text ends here
        if e + 1 < dv.nodes.len() {
            let nv2 = dv.nodes[e + 1];
            assert(contains_newline(nv2.leading));
            assert(wf_node(nv2));
            assert(dv.nodes.skip(e + 1).len() > 0);
            assert(dv.nodes.skip(e + 1)[0] == nv2);
            lemma_ser_nodes_front(dv.nodes.skip(e + 1));
            assert((ser_node(nv2) + ser_nodes(dv.nodes.skip(e + 1).drop_first())) + dv.trailing
                =~= ser_node(nv2) + (ser_nodes(dv.nodes.skip(e + 1).drop_first()) + dv.trailing));
            lemma_concat_split(
                s,
                b,
                j,
                ser_node(nv2),
                ser_nodes(dv.nodes.skip(e + 1).drop_first()) + dv.trailing,
            );
            let l2 = nv2.leading.len() as int;
            assert(ser_node(nv2) == ((nv2.leading + nv2.name) + ser_entries(nv2.entries))
                + ser_child_part(nv2));
            assert(((nv2.leading + nv2.name) + ser_entries(nv2.entries)) + ser_child_part(nv2)
                =~= nv2.leading + ((nv2.name + ser_entries(nv2.entries)) + ser_child_part(nv2)));
            lemma_concat_split(
                s,
                b,
                b + ser_node(nv2).len(),
                nv2.leading,
                (nv2.name + ser_entries(nv2.entries)) + ser_child_part(nv2),
            );
            lemma_first_newline(nv2.leading);
            let p = choose|p: int|
                0 <= p < nv2.leading.len() && nv2.leading[p] == '\n' && (forall|k: int|
                    0 <= k < p ==> is_inline_ws(nv2.leading[k]));
            assert(line_break_ahead(s, b)) by {
                assert(s[b + p] == '\n') by {
                    assert(s.subrange(b, b + l2)[p] == s[b + p]);
                }
                assert(forall|k: int| b <= k < b + p ==> is_inline_ws(s[k])) by {
                    assert(forall|k: int|
                        b <= k < b + l2 ==> s.subrange(b, b + l2)[k - b] == s[k]);
                }
                assert(break_pos_ok(s, b, b + p));
            }
        } else {
            assert(dv.trailing == s.subrange(b, j)) by {
                assert(dv.nodes.skip(e + 1) =~~= Seq::<NodeV>::empty());
                assert(ser_nodes(dv.nodes.skip(e + 1)) + dv.trailing =~= dv.trailing);
            }
            if contains_newline(dv.trailing) {
                lemma_first_newline(dv.trailing);
                let p = choose|p: int|
                    0 <= p < dv.trailing.len() && dv.trailing[p] == '\n' && (forall|k: int|
                        0 <= k < p ==> is_inline_ws(dv.trailing[k]));
                assert(line_break_ahead(s, b)) by {
                    assert(s[b + p] == '\n') by {
                        assert(s.subrange(b, j)[p] == s[b + p]);
                    }
                    assert(forall|k: int| b <= k < b + p ==> is_inline_ws(s[k])) by {
                        assert(forall|k: int| b <= k < j ==> s.subrange(b, j)[k - b] == s[k]);
                    }
                    assert(break_pos_ok(s, b, b + p));
                }
            } else {
                assert(line_break_ahead(s, b)) by {
                    assert(forall|k: int| b <= k < j ==> is_inline_ws(s[k])) by {
                        assert(forall|k: int| b <= k < j ==> s.subrange(b, j)[k - b] == s[k]);
                        assert(forall|k: int|
                            0 <= k < dv.trailing.len() ==> is_ws(#[trigger] dv.trailing[k])
                                && dv.trailing[k] != '\n');
                    }
                    assert(break_pos_ok(s, b, j));
                }
            }
        }
    }
}

/// The leading whitespace of any node hypothesis runs up to its name's first
/// character.
proof fn lemma_node_first_char(s: Seq<char>, cur: int, b: int, nv: NodeV)
    requires
        node_hyp(s, cur, b, nv),
    ensures
        ({
            let p = cur + nv.leading.len();
            &&& cur <= p < b
            &&& is_name_char(s[p])
            &&& forall|k: int| cur <= k < p ==> is_ws(s[k])
        }),
{
    let p = cur + nv.leading.len();
    assert(ser_node(nv) == ((nv.leading + nv.name) + ser_entries(nv.entries)) + ser_child_part(
        nv,
    ));
    assert(((nv.leading + nv.name) + ser_entries(nv.entries)) + ser_child_part(nv) =~= nv.leading
        + ((nv.name + ser_entries(nv.entries)) + ser_child_part(nv)));
    lemma_concat_split(
        s,
        cur,
        b,
        nv.leading,
        (nv.name + ser_entries(nv.entries)) + ser_child_part(nv),
    );
    assert(s[p] == nv.name[0]) by {
        assert(s.subrange(p, b)[0] == s[p]);
        assert(((nv.name + ser_entries(nv.entries)) + ser_child_part(nv))[0] == nv.name[0]);
    }
    assert(forall|k: int| cur <= k < p ==> is_ws(s[k])) by {
        assert(forall|k: int| cur <= k < p ==> s.subrange(cur, p)[k - cur] == s[k]);
    }
}

/// A node hypothesis whose head matches the parsed head up to the opening
/// brace encloses a document hypothesis for its child block.
proof fn lemma_hyp_block(s: Seq<char>, cur: int, hb: int, nv0: NodeV, jh: int)
    requires
        node_hyp(s, cur, hb, nv0),
        nv0.children is Some,
        nv0.leading + nv0.name + ser_entries(nv0.entries) + nv0.before_children == s.subrange(
            cur,
            jh,
        ),
        cur <= jh <= s.len(),
    ensures
        jh + 1 <= hb - 1 <= s.len() - 1,
        s[jh] == '{',
        s[hb - 1] == '}',
        doc_hyp(s, jh + 1, hb - 1, nv0.children->Some_0, false),
{
    let ch = nv0.children->Some_0;
    let hp = nv0.leading + nv0.name + ser_entries(nv0.entries) + nv0.before_children;
    let block = seq!['{'] + ser_doc(ch) + seq!['}'];
    assert(ser_node(nv0) =~= hp + block);
    lemma_concat_split(s, cur, hb, hp, block);
    assert(hp.len() == jh - cur);
    assert(block == s.subrange(jh, hb));
    lemma_block_split(s, jh, hb, ser_doc(ch));
    assert(wf_doc(ch));
}

/// Splits a serialized child block into its brace-delimited body.
proof fn lemma_block_split(s: Seq<char>, jh: int, b: int, body: Seq<char>)
    requires
        0 <= jh < b <= s.len(),
        seq!['{'] + body + seq!['}'] == s.subrange(jh, b),
    ensures
        s[jh] == '{',
        jh + 1 <= b - 1,
        body == s.subrange(jh + 1, b - 1),
        s[b - 1] == '}',
{
    assert((seq!['{'] + body + seq!['}']).len() == b - jh);
    assert((seq!['{'] + body) + seq!['}'] =~= seq!['{'] + body + seq!['}']);
    lemma_concat_split(s, jh, b, seq!['{'] + body, seq!['}']);
    assert(s[jh] == '{') by {
        assert(s.subrange(jh, b - 1)[0] == s[jh]);
        assert((seq!['{'] + body)[0] == '{');
    }
    assert(s[b - 1] == '}') by {
        assert(s.subrange(b - 1, b)[0] == s[b - 1]);
    }
    lemma_concat_split(s, jh, b - 1, seq!['{'], body);
}

proof fn lemma_newline_from_break(s: Seq<char>, i: int, w: int)
    requires
        line_break_ahead(s, i),
        0 <= i <= w < s.len(),
        forall|k: int| i <= k < w ==> is_ws(s[k]),
        !is_ws(s[w]),
        s[w] != '}',
    ensures
        contains_newline(s.subrange(i, w)),
{
    let m = choose|m: int| break_pos_ok(s, i, m);
    assert(break_pos_ok(s, i, m));
    if m > w {
        assert(is_inline_ws(s[w]));
    }
    assert(m <= w);
    if m == w {
        assert(false);
    }
    assert(is_ws(s[m]));
    assert(s[m] == '\n');
    assert(s.subrange(i, w)[m - i] == '\n');
}

/// Parses sibling nodes from `start` until the end of the input (`top`) or a
/// closing brace (`!top`); returns the document and the position where it
/// stopped. Any text outside the grammar yields `None`.
#[verifier::rlimit(100)]
fn parse_at(s: &str, n: usize, start: usize, top: bool) -> (r: Option<(Document, usize)>)
    requires
        n == s@.len(),
        start <= n,
    ensures
        r matches Some(res) ==> {
            &&& start <= res.1 <= n
            &&& wf_doc(doc_view(res.0))
            &&& ser_doc(doc_view(res.0)) == s@.subrange(start as int, res.1 as int)
            &&& (top ==> res.1 == n)
            &&& (!top ==> res.1 < n && s@[res.1 as int] == '}')
        },
        r is None ==> forall|dv: DocV, hj: int| !doc_hyp(s@, start as int, hj, dv, top),
        r matches Some(res) ==> forall|dv: DocV, hj: int|
            doc_hyp(s@, start as int, hj, dv, top) ==> hj == res.1,
    decreases n - start,
{
    let mut nodes: Vec<Node> = Vec::new();
    let mut cur = start;
    proof {
        assert(nodes_view(nodes@) =~~= Seq::<NodeV>::empty());
        assert(ser_nodes(nodes_view(nodes@)) =~= s@.subrange(start as int, cur as int));
        assert forall|dv: DocV, hj: int|
            doc_hyp(s@, start as int, hj, dv, top) implies exists|e: int|
            doc_state(s@, cur as int, hj, dv, e) by {
            assert(dv.nodes.skip(0) =~~= dv.nodes);
            assert(ser_nodes(dv.nodes.skip(0)) + dv.trailing == s@.subrange(start as int, hj));
            assert(doc_state(s@, cur as int, hj, dv, 0));
        }
    }
    loop
        invariant
            n == s@.len(),
            start <= cur <= n,
            ser_nodes(nodes_view(nodes@)) == s@.subrange(start as int, cur as int),
            nodes_view(nodes@).len() == nodes@.len(),
            forall|i: int|
                0 <= i < nodes_view(nodes@).len() ==> wf_node(#[trigger] nodes_view(nodes@)[i]),
            forall|i: int|
                1 <= i < nodes_view(nodes@).len() && nodes_view(nodes@)[i - 1].children is None
                    ==> contains_newline(#[trigger] nodes_view(nodes@)[i].leading),
            nodes@.len() > 0 && nodes_view(nodes@).last().children is None ==> line_break_ahead(
                s@,
                cur as int,
            ),
            forall|dv: DocV, hj: int|
                doc_hyp(s@, start as int, hj, dv, top) ==> exists|e: int|
                    doc_state(s@, cur as int, hj, dv, e),
        decreases n - cur,
    {
        let ghost nv = nodes_view(nodes@);
        let w = scan_ws(s, cur, n);
        if w == n {
            if top {
                let trailing = String::from_str(s.substring_char(cur, n));
                let d = Document { nodes, trailing };
                assert(ser_doc(doc_view(d)) =~= s@.subrange(start as int, n as int));
                return Some((d, n));
            } else {
                proof {
                    assert forall|dv: DocV, hj: int|
                        !doc_hyp(s@, start as int, hj, dv, top) by {
                        if doc_hyp(s@, start as int, hj, dv, top) {
                            let e = choose|e: int| doc_state(s@, cur as int, hj, dv, e);
                            if e == dv.nodes.len() {
                                lemma_doc_state_tail(s@, cur as int, hj, dv);
                                assert(is_ws(s@[hj]));
                            } else {
                                lemma_doc_state_node(s@, cur as int, hj, dv, e, top);
                                let nv0 = dv.nodes[e];
                                let hb = cur + ser_node(nv0).len();
                                lemma_node_first_char(s@, cur as int, hb, nv0);
                                assert(is_ws(s@[cur + nv0.leading.len()]));
                            }
                        }
                    }
                }
                return None;
            }
        }
        let c = s.get_char(w);
        if c == '}' {
            if top {
                proof {
                    assert forall|dv: DocV, hj: int|
                        !doc_hyp(s@, start as int, hj, dv, top) by {
                        if doc_hyp(s@, start as int, hj, dv, top) {
                            let e = choose|e: int| doc_state(s@, cur as int, hj, dv, e);
                            if e == dv.nodes.len() {
                                lemma_doc_state_tail(s@, cur as int, hj, dv);
                                assert(is_ws(s@[w as int]));
                            } else {
                                lemma_doc_state_node(s@, cur as int, hj, dv, e, top);
                                let nv0 = dv.nodes[e];
                                let hb = cur + ser_node(nv0).len();
                                lemma_node_first_char(s@, cur as int, hb, nv0);
                                let p = cur + nv0.leading.len();
                                if p < w {
                                    assert(is_ws(s@[p]));
                                } else if p > w {
                                    assert(is_ws(s@[w as int]));
                                }
                                assert(false);
                            }
                        }
                    }
                }
                return None;
            } else {
                let trailing = String::from_str(s.substring_char(cur, w));
                let d = Document { nodes, trailing };
                assert(ser_doc(doc_view(d)) =~= s@.subrange(start as int, w as int));
                proof {
                    assert forall|dv: DocV, hj: int|
                        doc_hyp(s@, start as int, hj, dv, top) implies hj == w as int by {
                        let e = choose|e: int| doc_state(s@, cur as int, hj, dv, e);
                        if e == dv.nodes.len() {
                            lemma_doc_state_tail(s@, cur as int, hj, dv);
                            if hj < w {
                                assert(is_ws(s@[hj]));
                                assert(false);
                            }
                            if hj > w {
                                assert(is_ws(s@[w as int]));
                                assert(false);
                            }
                        } else {
                            lemma_doc_state_node(s@, cur as int, hj, dv, e, top);
                            let nv0 = dv.nodes[e];
                            let hb = cur + ser_node(nv0).len();
                            lemma_node_first_char(s@, cur as int, hb, nv0);
                            let p = cur + nv0.leading.len();
                            if p < w {
                                assert(is_ws(s@[p]));
                            } else if p > w {
                                assert(is_ws(s@[w as int]));
                            }
                            assert(false);
                        }
                    }
                }
                return Some((d, w));
            }
        }
        if !name_char(c) {
            proof {
                assert forall|dv: DocV, hj: int|
                    !doc_hyp(s@, start as int, hj, dv, top) by {
                    if doc_hyp(s@, start as int, hj, dv, top) {
                        let e = choose|e: int| doc_state(s@, cur as int, hj, dv, e);
                        if e == dv.nodes.len() {
                            lemma_doc_state_tail(s@, cur as int, hj, dv);
                            if top {
                                assert(is_ws(s@[w as int]));
                            } else {
                                if hj < w {
                                    assert(is_ws(s@[hj]));
                                } else if hj > w {
                                    assert(is_ws(s@[w as int]));
                                }
                            }
                            assert(false);
                        } else {
                            lemma_doc_state_node(s@, cur as int, hj, dv, e, top);
                            let nv0 = dv.nodes[e];
                            let hb = cur + ser_node(nv0).len();
                            lemma_node_first_char(s@, cur as int, hb, nv0);
                            let p = cur + nv0.leading.len();
                            if p < w {
                                assert(is_ws(s@[p]));
                            } else if p > w {
                                assert(is_ws(s@[w as int]));
                            }
                            assert(false);
                        }
                    }
                }
            }
            return None;
        }
        let head = parse_node_head(s, n, cur, w);
        match head {
            None => {
                proof {
                    assert forall|dv: DocV, hj: int|
                        !doc_hyp(s@, start as int, hj, dv, top) by {
                        if doc_hyp(s@, start as int, hj, dv, top) {
                            let e = choose|e: int| doc_state(s@, cur as int, hj, dv, e);
                            if e == dv.nodes.len() {
                                lemma_doc_state_tail(s@, cur as int, hj, dv);
                                if top {
                                    assert(is_ws(s@[w as int]));
                                } else {
                                    if hj < w {
                                        assert(is_ws(s@[hj]));
                                    } else if hj > w {
                                        assert(is_ws(s@[w as int]));
                                    }
                                }
                                assert(false);
                            } else {
                                lemma_doc_state_node(s@, cur as int, hj, dv, e, top);
                                let nv0 = dv.nodes[e];
                                let hb = cur + ser_node(nv0).len();
                                assert(node_hyp(s@, cur as int, hb, nv0));
                                assert(false);
                            }
                        }
                    }
                }
                return None;
            },
            Some((node, jh, saw)) => {
                let ghost node_v0 = node_view(node);
                if saw {
                    match parse_at(s, n, jh + 1, false) {
                        None => {
                            proof {
                                assert forall|dv: DocV, hj: int|
                                    !doc_hyp(s@, start as int, hj, dv, top) by {
                                    if doc_hyp(s@, start as int, hj, dv, top) {
                                        let e = choose|e: int|
                                            doc_state(s@, cur as int, hj, dv, e);
                                        if e == dv.nodes.len() {
                                            lemma_doc_state_tail(s@, cur as int, hj, dv);
                                            if top {
                                                assert(is_ws(s@[w as int]));
                                            } else {
                                                if hj < w {
                                                    assert(is_ws(s@[hj]));
                                                } else if hj > w {
                                                    assert(is_ws(s@[w as int]));
                                                }
                                            }
                                            assert(false);
                                        } else {
                                            lemma_doc_state_node(s@, cur as int, hj, dv, e, top);
                                            let nv0 = dv.nodes[e];
                                            let hb = cur + ser_node(nv0).len();
                                            assert(node_hyp(s@, cur as int, hb, nv0));
                                            assert(nv0.children is Some);
                                            lemma_hyp_block(s@, cur as int, hb, nv0, jh as int);
                                            assert(!doc_hyp(
                                                s@,
                                                jh + 1,
                                                hb - 1,
                                                nv0.children->Some_0,
                                                false,
                                            ));
                                            assert(false);
                                        }
                                    }
                                }
                            }
                            return None;
                        },
                        Some((child, k)) => {
                            let ghost child_v = doc_view(child);
                            let node2 = Node {
                                leading: node.leading,
                                name: node.name,
                                entries: node.entries,
                                before_children: node.before_children,
                                children: Some(child),
                            };
                            let ghost n2v = node_view(node2);
                            proof {
                                assert(n2v.leading == node_v0.leading && n2v.name == node_v0.name
                                    && n2v.entries == node_v0.entries && n2v.before_children
                                    == node_v0.before_children);
                                assert(n2v.children == Some(child_v));
                                assert(wf_node(n2v));
                                assert(ser_node(n2v) == n2v.leading + n2v.name + ser_entries(
                                    n2v.entries,
                                ) + (n2v.before_children + seq!['{'] + ser_doc(child_v)
                                    + seq!['}']));
                                assert(s@.subrange(cur as int, k + 1) =~= s@.subrange(
                                    cur as int,
                                    jh as int,
                                ) + seq![s@[jh as int]] + s@.subrange(jh + 1, k as int) + seq![
                                    s@[k as int],
                                ]);
                                assert(ser_node(n2v) =~= s@.subrange(cur as int, k + 1));
                            }
                            let ghost ns0 = nodes@;
                            nodes.push(node2);
                            proof {
                                assert(nodes@ == ns0.push(nodes@.last()));
                                assert(nodes@.drop_last() =~= ns0);
                                assert(node_view(nodes@.last()) == n2v);
                                assert(nodes_view(nodes@) == nodes_view(nodes@.drop_last()).push(
                                    node_view(nodes@.last()),
                                ));
                                assert(nodes_view(nodes@) == nv.push(n2v));
                                assert(nodes_view(nodes@).drop_last() =~~= nv);
                                assert(ser_nodes(nodes_view(nodes@)) == ser_nodes(nv) + ser_node(
                                    n2v,
                                ));
                                assert(ser_nodes(nodes_view(nodes@)) =~= s@.subrange(
                                    start as int,
                                    k + 1,
                                ));
                                assert forall|i: int|
                                    1 <= i < nodes_view(nodes@).len() && nodes_view(
                                        nodes@,
                                    )[i - 1].children is None implies contains_newline(
                                    #[trigger] nodes_view(nodes@)[i].leading,
                                ) by {
                                    if i < nv.len() {
                                        assert(nodes_view(nodes@)[i] == nv[i]);
                                        assert(nodes_view(nodes@)[i - 1] == nv[i - 1]);
                                    } else {
                                        assert(nodes_view(nodes@)[i] == n2v);
                                        if nv.last().children is None {
                                            lemma_newline_from_break(s@, cur as int, w as int);
                                            assert(n2v.leading == s@.subrange(
                                                cur as int,
                                                w as int,
                                            ));
                                        }
                                    }
                                }
                                let kn: int = k + 1;
                                assert forall|dv: DocV, hj: int|
                                    doc_hyp(s@, start as int, hj, dv, top) implies exists|e2: int|
                                    doc_state(s@, kn, hj, dv, e2) by {
                                    let e = choose|e: int| doc_state(s@, cur as int, hj, dv, e);
                                    if e == dv.nodes.len() {
                                        lemma_doc_state_tail(s@, cur as int, hj, dv);
                                        if top {
                                            assert(is_ws(s@[w as int]));
                                        } else {
                                            if hj < w {
                                                assert(is_ws(s@[hj]));
                                            } else if hj > w {
                                                assert(is_ws(s@[w as int]));
                                            }
                                        }
                                        assert(false);
                                    } else {
                                        lemma_doc_state_node(s@, cur as int, hj, dv, e, top);
                                        let hv0 = dv.nodes[e];
                                        let hb = cur + ser_node(hv0).len();
                                        assert(node_hyp(s@, cur as int, hb, hv0));
                                        assert(hv0.children is Some);
                                        lemma_hyp_block(s@, cur as int, hb, hv0, jh as int);
                                        assert(doc_hyp(
                                            s@,
                                            jh + 1,
                                            hb - 1,
                                            hv0.children->Some_0,
                                            false,
                                        ));
                                        assert(hb - 1 == k as int);
                                        assert(doc_state(s@, kn, hj, dv, e + 1));
                                    }
                                }
                            }
                            cur = k + 1;
                        },
                    }
                } else {
                    let ghost jg = jh as int;
                    let ghost ns0 = nodes@;
                    nodes.push(node);
                    proof {
                        assert(nodes@ == ns0.push(nodes@.last()));
                        assert(nodes@.drop_last() =~= ns0);
                        assert(node_view(nodes@.last()) == node_v0);
                        assert(nodes_view(nodes@) == nodes_view(nodes@.drop_last()).push(
                            node_view(nodes@.last()),
                        ));
                        assert(nodes_view(nodes@) == nv.push(node_v0));
                        assert(nodes_view(nodes@).drop_last() =~~= nv);
                        assert(ser_nodes(nodes_view(nodes@)) == ser_nodes(nv) + ser_node(node_v0));
                        assert(ser_nodes(nodes_view(nodes@)) =~= s@.subrange(start as int, jg));
                        assert forall|i: int|
                            1 <= i < nodes_view(nodes@).len() && nodes_view(
                                nodes@,
                            )[i - 1].children is None implies contains_newline(
                            #[trigger] nodes_view(nodes@)[i].leading,
                        ) by {
                            if i < nv.len() {
                                assert(nodes_view(nodes@)[i] == nv[i]);
                                assert(nodes_view(nodes@)[i - 1] == nv[i - 1]);
                            } else {
                                assert(nodes_view(nodes@)[i] == node_v0);
                                if nv.last().children is None {
                                    lemma_newline_from_break(s@, cur as int, w as int);
                                    assert(node_v0.leading == s@.subrange(cur as int, w as int));
                                }
                            }
                        }
                        assert forall|dv: DocV, hj: int|
                            doc_hyp(s@, start as int, hj, dv, top) implies exists|e2: int|
                            doc_state(s@, jg, hj, dv, e2) by {
                            let e = choose|e: int| doc_state(s@, cur as int, hj, dv, e);
                            if e == dv.nodes.len() {
                                lemma_doc_state_tail(s@, cur as int, hj, dv);
                                if top {
                                    assert(is_ws(s@[w as int]));
                                } else {
                                    if hj < w {
                                        assert(is_ws(s@[hj]));
                                    } else if hj > w {
                                        assert(is_ws(s@[w as int]));
                                    }
                                }
                                assert(false);
                            } else {
                                lemma_doc_state_node(s@, cur as int, hj, dv, e, top);
                                let hv0 = dv.nodes[e];
                                let hb = cur + ser_node(hv0).len();
                                assert(node_hyp(s@, cur as int, hb, hv0));
                                assert(hv0.children is None && hb == jg);
                                assert(doc_state(s@, jg, hj, dv, e + 1));
                            }
                        }
                    }
                    cur = jh;
                }
            },
        }
    }
}

/// Parses text into a document. Parsing is fail-soft but complete: it
/// returns `Some` exactly on the serializations of well-formed documents,
/// and a successful parse is exact — serializing the result reproduces the
/// input byte for byte.
pub fn parse_document(s: &str) -> (r: Option<Document>)
    ensures
        r matches Some(d) ==> wf_doc(doc_view(d)) && ser_doc(doc_view(d)) == s@,
        (exists|dv: DocV| wf_doc(dv) && ser_doc(dv) == s@) ==> r is Some,
{
    let n = s.unicode_len();
    match parse_at(s, n, 0, true) {
        Some((d, _j)) => {
            proof {
                assert(s@.subrange(0, n as int) =~= s@);
            }
            Some(d)
        },
        None => {
            proof {
                if exists|dv: DocV| wf_doc(dv) && ser_doc(dv) == s@ {
                    let dv = choose|dv: DocV| wf_doc(dv) && ser_doc(dv) == s@;
                    assert(s@.subrange(0, n as int) =~= s@);
                    assert(doc_hyp(s@, 0, n as int, dv, true));
                    assert(false);
                }
            }
            None
        },
    }
}

} // verus!
