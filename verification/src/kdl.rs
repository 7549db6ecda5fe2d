//! The session-layout transform: a depth-first walk over a parsed document
//! that simplifies editor commands in `pane` nodes and wraps the commands of
//! panes under a `dr `-named `tab` in an environment-loading launcher, while
//! preserving every untouched byte of the original formatting.

use crate::document::DocV;
use crate::document::Document;
use crate::document::Entry;
use crate::document::EntryV;
use crate::document::Node;
use crate::document::NodeV;
use crate::document::Value;
use crate::document::ValueV;
use crate::document::doc_view;
use crate::document::entries_view;
use crate::document::entry_view;
use crate::document::lemma_nodes_view;
use crate::document::node_view;
use crate::document::nodes_view;
use crate::document::parse_document;
use crate::document::ser_doc;
use crate::document::serialize_doc;
use crate::document::wf_doc;
use crate::nvim::contains_exec;
use crate::nvim::contains_seq;
use crate::nvim::format_nvim;
use crate::nvim::has_prefix;
use crate::nvim::has_prefix_exec;
use crate::nvim::join_exec;
use crate::nvim::join_spaces;
use crate::nvim::nvim_chars;
use crate::nvim::simplify_command;
use crate::nvim::split_spaces;
use crate::nvim::str_eq;
use crate::nvim::strs_view;
use vstd::prelude::*;

verus! {

// ---------------------------------------------------------------------------
// Change records
// ---------------------------------------------------------------------------

/// A record of one simplified pane command: the file it came from (filled in
/// by the caller), the command as found, and the command as rewritten.
#[derive(Debug, Clone)]
pub struct Changes {
    pub file_path: String,
    pub original_command: String,
    pub simplified_command: String,
}

#[verifier::ext_equal]
pub ghost struct ChangeV {
    pub file_path: Seq<char>,
    pub original_command: Seq<char>,
    pub simplified_command: Seq<char>,
}

impl View for Changes {
    type V = ChangeV;

    open spec fn view(&self) -> ChangeV {
        ChangeV {
            file_path: self.file_path@,
            original_command: self.original_command@,
            simplified_command: self.simplified_command@,
        }
    }
}

pub open spec fn changes_view(s: Seq<Changes>) -> Seq<ChangeV> {
    s.map_values(|c: Changes| c@)
}

// ---------------------------------------------------------------------------
// Names the transform looks for
// ---------------------------------------------------------------------------

pub open spec fn tab_chars() -> Seq<char> {
    seq!['t', 'a', 'b']
}

pub open spec fn pane_chars() -> Seq<char> {
    seq!['p', 'a', 'n', 'e']
}

pub open spec fn args_chars() -> Seq<char> {
    seq!['a', 'r', 'g', 's']
}

pub open spec fn command_chars() -> Seq<char> {
    seq!['c', 'o', 'm', 'm', 'a', 'n', 'd']
}

pub open spec fn name_attr_chars() -> Seq<char> {
    seq!['n', 'a', 'm', 'e']
}

pub open spec fn direnv_chars() -> Seq<char> {
    seq!['d', 'i', 'r', 'e', 'n', 'v']
}

pub open spec fn exec_word_chars() -> Seq<char> {
    seq!['e', 'x', 'e', 'c']
}

pub open spec fn dot_chars() -> Seq<char> {
    seq!['.']
}

/// The marker prefix of a tab name: `dr ` (three characters, case-sensitive).
pub open spec fn dr_prefix_chars() -> Seq<char> {
    seq!['d', 'r', ' ']
}

// ---------------------------------------------------------------------------
// Reading attributes and the args child
// ---------------------------------------------------------------------------

/// Index of the first entry with the given name, or -1. First match wins.
pub open spec fn named_entry_index(es: Seq<EntryV>, name: Seq<char>) -> int
    decreases es.len(),
{
    if es.len() == 0 {
        -1
    } else if es[0].name == Some(name) {
        0
    } else {
        let r = named_entry_index(es.drop_first(), name);
        if r < 0 {
            -1
        } else {
            r + 1
        }
    }
}

/// The string value of the first entry with the given name; `None` when the
/// entry is absent or its value is not a string.
pub open spec fn named_str_value(n: NodeV, name: Seq<char>) -> Option<Seq<char>> {
    let i = named_entry_index(n.entries, name);
    if i < 0 {
        None
    } else {
        match n.entries[i].value {
            ValueV::Str(s) => Some(s),
            ValueV::Bare(_) => None,
        }
    }
}

pub open spec fn command_of(n: NodeV) -> Option<Seq<char>> {
    named_str_value(n, command_chars())
}

/// A tab is a direnv tab when its `name` attribute starts with `dr `.
pub open spec fn is_direnv_tab(n: NodeV) -> bool {
    match named_str_value(n, name_attr_chars()) {
        Some(s) => has_prefix(s, dr_prefix_chars()),
        None => false,
    }
}

/// Index of the first child node named `args`, or -1.
pub open spec fn args_child_index(ns: Seq<NodeV>) -> int
    decreases ns.len(),
{
    if ns.len() == 0 {
        -1
    } else if ns[0].name == args_chars() {
        0
    } else {
        let r = args_child_index(ns.drop_first());
        if r < 0 {
            -1
        } else {
            r + 1
        }
    }
}

/// The positional string values of an entry list, in order. Named entries and
/// bare values are passed over.
pub open spec fn positional_str_values(es: Seq<EntryV>) -> Seq<Seq<char>>
    decreases es.len(),
{
    if es.len() == 0 {
        Seq::<Seq<char>>::empty()
    } else {
        positional_str_values(es.drop_last()) + (match (es.last().name, es.last().value) {
            (Option::<Seq<char>>::None, ValueV::Str(s)) => seq![s],
            _ => Seq::<Seq<char>>::empty(),
        })
    }
}

/// The positional arguments of a pane: the positional string values of its
/// first `args` child, if any.
pub open spec fn pane_args(n: NodeV) -> Seq<Seq<char>> {
    match n.children {
        None => Seq::<Seq<char>>::empty(),
        Some(d) => {
            let i = args_child_index(d.nodes);
            if i < 0 {
                Seq::<Seq<char>>::empty()
            } else {
                positional_str_values(d.nodes[i].entries)
            }
        },
    }
}

/// The full command of a pane: the command value alone, or the command and
/// its space-joined arguments.
pub open spec fn full_command(cmd: Seq<char>, args: Seq<Seq<char>>) -> Seq<char> {
    if args.len() == 0 {
        cmd
    } else {
        cmd + seq![' '] + join_spaces(args)
    }
}

/// The tokens of a split with the empty ones dropped.
pub open spec fn nonempty_tokens(ts: Seq<Seq<char>>) -> Seq<Seq<char>>
    decreases ts.len(),
{
    if ts.len() == 0 {
        Seq::<Seq<char>>::empty()
    } else {
        nonempty_tokens(ts.drop_last()) + (if ts.last().len() > 0 {
            seq![ts.last()]
        } else {
            Seq::<Seq<char>>::empty()
        })
    }
}

/// The filenames of a simplified command: what follows a leading `nvim `,
/// split on spaces; empty when the command is exactly `nvim` or does not
/// start with `nvim `.
pub open spec fn file_args_of(simplified: Seq<char>) -> Seq<Seq<char>> {
    if has_prefix(simplified, nvim_chars() + seq![' ']) {
        nonempty_tokens(split_spaces(simplified.subrange(5, simplified.len() as int)))
    } else {
        Seq::<Seq<char>>::empty()
    }
}

// ---------------------------------------------------------------------------
// Format-preserving mutation
// ---------------------------------------------------------------------------

/// The first entry with the given name gets the string value `v`; its name
/// and leading whitespace stay. A node without such an entry is unchanged.
pub open spec fn set_named_str(n: NodeV, name: Seq<char>, v: Seq<char>) -> NodeV {
    let i = named_entry_index(n.entries, name);
    if i < 0 {
        n
    } else {
        NodeV {
            entries: n.entries.update(
                i,
                EntryV {
                    leading: n.entries[i].leading,
                    name: n.entries[i].name,
                    value: ValueV::Str(v),
                },
            ),
            ..n
        }
    }
}

pub open spec fn set_command_value(n: NodeV, v: Seq<char>) -> NodeV {
    set_named_str(n, command_chars(), v)
}

/// Fresh positional entries for an args node, one per file, each preceded by
/// a single space.
pub open spec fn str_args_entries(files: Seq<Seq<char>>) -> Seq<EntryV> {
    files.map_values(
        |f: Seq<char>| EntryV { leading: seq![' '], name: None, value: ValueV::Str(f) },
    )
}

pub open spec fn fresh_args_node(leading: Seq<char>, files: Seq<Seq<char>>) -> NodeV {
    NodeV {
        leading,
        name: args_chars(),
        entries: str_args_entries(files),
        before_children: Seq::<char>::empty(),
        children: None,
    }
}

/// Strips one leading blank-line character: when the leading whitespace opens
/// with two line ends, the first is dropped, keeping the indentation intact.
pub open spec fn strip_blank_line(n: NodeV) -> NodeV {
    if n.leading.len() >= 2 && n.leading[0] == '\n' && n.leading[1] == '\n' {
        NodeV { leading: n.leading.drop_first(), ..n }
    } else {
        n
    }
}

/// Replaces or inserts the `args` child with fresh positional entries,
/// preserving the pane's visual layout: an existing args node keeps its
/// place and leading whitespace; otherwise the new node goes first, taking
/// the first child's leading whitespace.
pub open spec fn set_args_child(n: NodeV, files: Seq<Seq<char>>) -> NodeV {
    match n.children {
        None => NodeV {
            before_children: seq![' '],
            children: Some(
                DocV { nodes: seq![fresh_args_node(seq![' '], files)], trailing: seq![' '] },
            ),
            ..n
        },
        Some(d) => {
            let i = args_child_index(d.nodes);
            if i >= 0 {
                NodeV {
                    children: Some(
                        DocV {
                            nodes: d.nodes.update(i, fresh_args_node(d.nodes[i].leading, files)),
                            trailing: d.trailing,
                        },
                    ),
                    ..n
                }
            } else if d.nodes.len() > 0 {
                NodeV {
                    children: Some(
                        DocV {
                            nodes: seq![fresh_args_node(d.nodes[0].leading, files)]
                                + d.nodes.update(0, strip_blank_line(d.nodes[0])),
                            trailing: d.trailing,
                        },
                    ),
                    ..n
                }
            } else {
                NodeV {
                    children: Some(
                        DocV {
                            nodes: seq![fresh_args_node(seq![' '], files)],
                            trailing: seq![' '],
                        },
                    ),
                    ..n
                }
            }
        },
    }
}

/// Drops the first `args` child, leaving every remaining sibling untouched.
pub open spec fn remove_args_child(n: NodeV) -> NodeV {
    match n.children {
        None => n,
        Some(d) => {
            let i = args_child_index(d.nodes);
            if i < 0 {
                n
            } else {
                NodeV {
                    children: Some(DocV { nodes: d.nodes.remove(i), trailing: d.trailing }),
                    ..n
                }
            }
        },
    }
}

/// The rewritten pane: command set to `cmd`; args child replaced by `files`,
/// or removed entirely when `files` is empty.
pub open spec fn simplified_pane(n: NodeV, cmd: Seq<char>, files: Seq<Seq<char>>) -> NodeV {
    if files.len() > 0 {
        set_args_child(set_command_value(n, cmd), files)
    } else {
        remove_args_child(set_command_value(n, cmd))
    }
}

// ---------------------------------------------------------------------------
// The pane transform
// ---------------------------------------------------------------------------

/// The new positional arguments of a direnv-wrapped pane: `exec . <cmd>`
/// followed by the simplified filenames when the command launches the editor,
/// else by the original arguments, if any.
pub open spec fn direnv_args(cmd: Seq<char>, args: Seq<Seq<char>>) -> Seq<Seq<char>> {
    if contains_seq(cmd, nvim_chars()) {
        let files = file_args_of(simplify_command(full_command(cmd, args)));
        seq![exec_word_chars(), dot_chars(), nvim_chars()] + (if files.len() > 0 {
            files
        } else if args.len() > 0 {
            args
        } else {
            Seq::<Seq<char>>::empty()
        })
    } else {
        seq![exec_word_chars(), dot_chars(), cmd] + (if args.len() > 0 {
            args
        } else {
            Seq::<Seq<char>>::empty()
        })
    }
}

/// One pane's rewrite, given the inherited direnv flag: under the flag the
/// command is wrapped in `direnv exec . ...` (unless already `direnv`);
/// otherwise a command containing `nvim` is simplified; anything else is left
/// untouched. Exactly the rewritten panes yield a change record.
pub open spec fn pane_step(n: NodeV, flag: bool) -> (NodeV, Seq<ChangeV>) {
    match command_of(n) {
        None => (n, Seq::<ChangeV>::empty()),
        Some(cmd) => {
            if flag {
                if cmd == direnv_chars() {
                    (n, Seq::<ChangeV>::empty())
                } else {
                    let args = pane_args(n);
                    let f = full_command(cmd, args);
                    let newargs = direnv_args(cmd, args);
                    (
                        simplified_pane(n, direnv_chars(), newargs),
                        seq![
                            ChangeV {
                                file_path: Seq::<char>::empty(),
                                original_command: f,
                                simplified_command: direnv_chars() + seq![' '] + join_spaces(
                                    newargs,
                                ),
                            },
                        ],
                    )
                }
            } else if contains_seq(cmd, nvim_chars()) {
                let args = pane_args(n);
                let f = full_command(cmd, args);
                let simp = simplify_command(f);
                if simp == f {
                    (n, Seq::<ChangeV>::empty())
                } else {
                    (
                        simplified_pane(n, nvim_chars(), file_args_of(simp)),
                        seq![
                            ChangeV {
                                file_path: Seq::<char>::empty(),
                                original_command: f,
                                simplified_command: simp,
                            },
                        ],
                    )
                }
            } else {
                (n, Seq::<ChangeV>::empty())
            }
        },
    }
}

// ---------------------------------------------------------------------------
// The tree walk
// ---------------------------------------------------------------------------

/// One node of the walk. A `tab` recomputes the direnv flag for its subtree
/// from its own `name`; a `pane` is rewritten and its descendants are walked
/// with the inherited flag; any other node only passes the flag down.
pub open spec fn walk_node(n: NodeV, flag: bool) -> (NodeV, Seq<ChangeV>)
    decreases n, 2int,
{
    if n.name == tab_chars() {
        walk_children(n, is_direnv_tab(n))
    } else if n.name == pane_chars() {
        let kids = walk_children(n, flag);
        let own = pane_step(kids.0, flag);
        (own.0, own.1 + kids.1)
    } else {
        walk_children(n, flag)
    }
}

pub open spec fn walk_children(n: NodeV, flag: bool) -> (NodeV, Seq<ChangeV>)
    decreases n, 1int,
{
    match n.children {
        None => (n, Seq::<ChangeV>::empty()),
        Some(d) => {
            let r = walk_doc(d, flag);
            (NodeV { children: Some(r.0), ..n }, r.1)
        },
    }
}

pub open spec fn walk_nodes(ns: Seq<NodeV>, flag: bool) -> (Seq<NodeV>, Seq<ChangeV>)
    decreases ns, 3int,
{
    if ns.len() == 0 {
        (Seq::<NodeV>::empty(), Seq::<ChangeV>::empty())
    } else {
        let h = walk_node(ns[0], flag);
        let t = walk_nodes(ns.drop_first(), flag);
        (seq![h.0] + t.0, h.1 + t.1)
    }
}

/// The whole transform over a document, with the direnv flag in scope (false
/// at top level).
pub open spec fn walk_doc(d: DocV, flag: bool) -> (DocV, Seq<ChangeV>)
    decreases d, 4int,
{
    let r = walk_nodes(d.nodes, flag);
    (DocV { nodes: r.0, trailing: d.trailing }, r.1)
}

// ---------------------------------------------------------------------------
// Executable accessors
// ---------------------------------------------------------------------------

pub(crate) proof fn lemma_named_entry_index_prefix(es: Seq<EntryV>, name: Seq<char>, i: int)
    requires
        0 <= i <= es.len(),
        forall|j: int| 0 <= j < i ==> (#[trigger] es[j]).name != Some(name),
    ensures
        i < es.len() && es[i].name == Some(name) ==> named_entry_index(es, name) == i,
        i == es.len() ==> named_entry_index(es, name) == -1,
    decreases es.len(),
{
    if es.len() == 0 {
    } else if i == 0 {
    } else {
        assert(es[0].name != Some(name));
        lemma_named_entry_index_prefix(es.drop_first(), name, i - 1);
        assert(forall|j: int| 0 <= j < i - 1 ==> #[trigger] es.drop_first()[j] == es[j + 1]);
    }
}

pub(crate) proof fn lemma_args_child_index_prefix(ns: Seq<NodeV>, i: int)
    requires
        0 <= i <= ns.len(),
        forall|j: int| 0 <= j < i ==> (#[trigger] ns[j]).name != args_chars(),
    ensures
        i < ns.len() && ns[i].name == args_chars() ==> args_child_index(ns) == i,
        i == ns.len() ==> args_child_index(ns) == -1,
    decreases ns.len(),
{
    if ns.len() == 0 {
    } else if i == 0 {
    } else {
        assert(ns[0].name != args_chars());
        lemma_args_child_index_prefix(ns.drop_first(), i - 1);
        assert(forall|j: int| 0 <= j < i - 1 ==> #[trigger] ns.drop_first()[j] == ns[j + 1]);
    }
}

fn find_named_entry(entries: &Vec<Entry>, name: &str) -> (r: Option<usize>)
    ensures
        r matches Some(i) ==> i < entries@.len() && named_entry_index(
            entries_view(entries@),
            name@,
        ) == i as int,
        r is None ==> named_entry_index(entries_view(entries@), name@) == -1,
{
    let ghost ev = entries_view(entries@);
    let mut i: usize = 0;
    while i < entries.len()
        invariant
            ev == entries_view(entries@),
            ev.len() == entries@.len(),
            0 <= i <= entries@.len(),
            forall|j: int| 0 <= j < i ==> (#[trigger] ev[j]).name != Some(name@),
        decreases entries.len() - i,
    {
        let found = match &entries[i].name {
            Some(en) => str_eq(en.as_str(), name),
            None => false,
        };
        proof {
            assert(ev[i as int] == entry_view(entries@[i as int]));
        }
        if found {
            proof {
                lemma_named_entry_index_prefix(ev, name@, i as int);
            }
            return Some(i);
        }
        assert(ev[i as int].name != Some(name@));
        i = i + 1;
    }
    proof {
        lemma_named_entry_index_prefix(ev, name@, ev.len() as int);
    }
    None
}

fn find_args_child(nodes: &Vec<Node>) -> (r: Option<usize>)
    ensures
        r matches Some(i) ==> i < nodes@.len() && args_child_index(nodes_view(nodes@)) == i as int,
        r is None ==> args_child_index(nodes_view(nodes@)) == -1,
{
    proof {
        reveal_strlit("args");
        assert("args"@ =~= args_chars());
        lemma_nodes_view(nodes@);
    }
    let ghost nv = nodes_view(nodes@);
    let mut i: usize = 0;
    while i < nodes.len()
        invariant
            nv == nodes_view(nodes@),
            nv.len() == nodes@.len(),
            "args"@ == args_chars(),
            0 <= i <= nodes@.len(),
            forall|j: int| 0 <= j < i ==> (#[trigger] nv[j]).name != args_chars(),
        decreases nodes.len() - i,
    {
        proof {
            lemma_nodes_view(nodes@);
        }
        if str_eq(nodes[i].name.as_str(), "args") {
            proof {
                lemma_args_child_index_prefix(nv, i as int);
            }
            return Some(i);
        }
        assert(nv[i as int].name != args_chars());
        i = i + 1;
    }
    proof {
        lemma_args_child_index_prefix(nv, nv.len() as int);
    }
    None
}

fn positional_values(entries: &Vec<Entry>) -> (r: Vec<String>)
    ensures
        strs_view(r@) == positional_str_values(entries_view(entries@)),
{
    let ghost ev = entries_view(entries@);
    let mut out: Vec<String> = Vec::new();
    let mut i: usize = 0;
    proof {
        assert(strs_view(out@) =~~= positional_str_values(ev.take(0)));
    }
    while i < entries.len()
        invariant
            ev == entries_view(entries@),
            ev.len() == entries@.len(),
            0 <= i <= entries@.len(),
            strs_view(out@) == positional_str_values(ev.take(i as int)),
        decreases entries.len() - i,
    {
        let ghost pre = ev.take(i as int);
        proof {
            assert(ev.take(i + 1).drop_last() =~~= pre);
            assert(ev.take(i + 1).last() == ev[i as int]);
            assert(ev[i as int] == entry_view(entries@[i as int]));
        }
        let e = &entries[i];
        match (&e.name, &e.value) {
            (Option::None, Value::Str(s)) => {
                let ghost out0 = out@;
                out.push(s.clone());
                proof {
                    assert(strs_view(out@) =~~= strs_view(out0).push(s@));
                    assert(positional_str_values(ev.take(i + 1)) =~~= positional_str_values(pre)
                        + seq![s@]);
                    assert(strs_view(out@) =~~= positional_str_values(ev.take(i + 1)));
                }
            },
            _ => {
                proof {
                    assert(positional_str_values(ev.take(i + 1)) =~~= positional_str_values(pre));
                }
            },
        }
        i = i + 1;
    }
    proof {
        assert(ev.take(ev.len() as int) =~~= ev);
    }
    out
}

impl Node {
    /// Reads the string value of the first entry with the given name; `None`
    /// when there is no such entry or its value is not a string.
    pub fn string_entry(&self, name: &str) -> (r: Option<String>)
        ensures
            r matches Some(v) ==> named_str_value(node_view(*self), name@) == Some(v@),
            r is None ==> named_str_value(node_view(*self), name@) is None,
    {
        match find_named_entry(&self.entries, name) {
            None => None,
            Some(i) => {
                assert(entries_view(self.entries@)[i as int] == entry_view(
                    self.entries@[i as int],
                ));
                match &self.entries[i].value {
                    Value::Str(s) => Some(s.clone()),
                    Value::Bare(_) => None,
                }
            },
        }
    }

    /// A tab is a direnv tab when its `name` attribute starts with `dr `.
    pub fn direnv_tab(&self) -> (r: bool)
        ensures
            r == is_direnv_tab(node_view(*self)),
    {
        proof {
            reveal_strlit("name");
            reveal_strlit("dr ");
            assert("name"@ =~= name_attr_chars());
            assert("dr "@ =~= dr_prefix_chars());
        }
        match self.string_entry("name") {
            None => false,
            Some(v) => has_prefix_exec(v.as_str(), "dr "),
        }
    }

    /// The positional string arguments of this pane's first `args` child.
    pub fn args_values(&self) -> (r: Vec<String>)
        ensures
            strs_view(r@) == pane_args(node_view(*self)),
    {
        match &self.children {
            None => {
                let r: Vec<String> = Vec::new();
                assert(strs_view(r@) =~~= pane_args(node_view(*self)));
                r
            },
            Some(d) => {
                match find_args_child(&d.nodes) {
                    None => {
                        let r: Vec<String> = Vec::new();
                        assert(strs_view(r@) =~~= pane_args(node_view(*self)));
                        r
                    },
                    Some(i) => {
                        proof {
                            lemma_nodes_view(d.nodes@);
                        }
                        let r = positional_values(&d.nodes[i].entries);
                        assert(strs_view(r@) == pane_args(node_view(*self)));
                        r
                    },
                }
            },
        }
    }
}

// ---------------------------------------------------------------------------
// Executable format-preserving mutation
// ---------------------------------------------------------------------------

fn with_named_str(n: Node, name: &str, v: String) -> (r: Node)
    ensures
        node_view(r) == set_named_str(node_view(n), name@, v@),
{
    let ghost nv = node_view(n);
    let Node { leading, name: node_name, entries, before_children, children } = n;
    let mut entries = entries;
    let found = find_named_entry(&entries, name);
    match found {
        None => {
            let r = Node { leading, name: node_name, entries, before_children, children };
            assert(node_view(r) =~~= set_named_str(nv, name@, v@));
            r
        },
        Some(i) => {
            let ghost es0 = entries@;
            let old_e = entries.remove(i);
            let new_e = Entry { leading: old_e.leading, name: old_e.name, value: Value::Str(v) };
            let ghost new_ev = entry_view(new_e);
            entries.insert(i, new_e);
            proof {
                assert(entries@ =~= es0.update(i as int, entries@[i as int]));
                assert(entry_view(entries@[i as int]) == new_ev);
                assert(entries_view(entries@) =~~= entries_view(es0).update(i as int, new_ev));
            }
            let r = Node { leading, name: node_name, entries, before_children, children };
            assert(node_view(r) =~~= set_named_str(nv, name@, v@));
            r
        },
    }
}

fn fresh_args_exec(leading: String, files: &Vec<String>) -> (r: Node)
    ensures
        node_view(r) == fresh_args_node(leading@, strs_view(files@)),
{
    proof {
        reveal_strlit("args");
        reveal_strlit(" ");
        assert("args"@ =~= args_chars());
        assert(" "@ =~= seq![' ']);
    }
    let ghost fv = strs_view(files@);
    let mut entries: Vec<Entry> = Vec::new();
    let mut i: usize = 0;
    proof {
        assert(entries_view(entries@) =~~= str_args_entries(fv.take(0)));
    }
    while i < files.len()
        invariant
            fv == strs_view(files@),
            fv.len() == files@.len(),
            " "@ == seq![' '],
            0 <= i <= files@.len(),
            entries@.len() == i,
            entries_view(entries@) == str_args_entries(fv.take(i as int)),
        decreases files.len() - i,
    {
        let ghost es0 = entries@;
        entries.push(
            Entry {
                leading: String::from_str(" "),
                name: None,
                value: Value::Str(files[i].clone()),
            },
        );
        proof {
            assert(fv[i as int] == files@[i as int]@);
            assert(entries@.len() == i + 1);
            assert forall|j: int|
                0 <= j < i + 1 implies entries_view(entries@)[j] == str_args_entries(
                fv.take(i + 1),
            )[j] by {
                if j < i {
                    assert(entries@[j] == es0[j]);
                    assert(entries_view(es0)[j] == str_args_entries(fv.take(i as int))[j]);
                    assert(fv.take(i as int)[j] == fv[j]);
                    assert(fv.take(i + 1)[j] == fv[j]);
                } else {
                    assert(entry_view(entries@[j]) =~~= EntryV {
                        leading: seq![' '],
                        name: None,
                        value: ValueV::Str(fv[j]),
                    });
                    assert(str_args_entries(fv.take(i + 1))[j] == EntryV {
                        leading: seq![' '],
                        name: None,
                        value: ValueV::Str(fv[j]),
                    });
                }
            }
            assert(entries_view(entries@) =~~= str_args_entries(fv.take(i + 1)));
        }
        i = i + 1;
    }
    proof {
        assert(fv.take(fv.len() as int) =~~= fv);
    }
    let r = Node {
        leading,
        name: String::from_str("args"),
        entries,
        before_children: String::new(),
        children: None,
    };
    assert(node_view(r) =~~= fresh_args_node(r.leading@, fv));
    r
}

fn strip_blank_exec(n: Node) -> (r: Node)
    ensures
        node_view(r) == strip_blank_line(node_view(n)),
{
    let ghost nv = node_view(n);
    let len = n.leading.unicode_len();
    if len >= 2 {
        let c0 = n.leading.as_str().get_char(0);
        let c1 = n.leading.as_str().get_char(1);
        if c0 == '\n' && c1 == '\n' {
            let Node { leading, name, entries, before_children, children } = n;
            let new_lead = String::from_str(leading.as_str().substring_char(1, len));
            assert(new_lead@ =~= leading@.drop_first());
            let r = Node { leading: new_lead, name, entries, before_children, children };
            assert(node_view(r) =~~= strip_blank_line(nv));
            return r;
        }
    }
    assert(node_view(n) =~~= strip_blank_line(nv));
    n
}

fn with_args_child(n: Node, files: &Vec<String>) -> (r: Node)
    ensures
        node_view(r) == set_args_child(node_view(n), strs_view(files@)),
{
    proof {
        reveal_strlit(" ");
        assert(" "@ =~= seq![' ']);
    }
    let ghost nv = node_view(n);
    let ghost fv = strs_view(files@);
    let Node { leading, name, entries, before_children, children } = n;
    match children {
        None => {
            let fresh = fresh_args_exec(String::from_str(" "), files);
            let ghost fresh_v = node_view(fresh);
            let mut ns: Vec<Node> = Vec::new();
            ns.push(fresh);
            proof {
                lemma_nodes_view(ns@);
                assert(node_view(ns@[0]) == fresh_v);
                assert(nodes_view(ns@) =~~= seq![fresh_v]);
            }
            let d = Document { nodes: ns, trailing: String::from_str(" ") };
            let r = Node {
                leading,
                name,
                entries,
                before_children: String::from_str(" "),
                children: Some(d),
            };
            assert(node_view(r) =~~= set_args_child(nv, fv));
            r
        },
        Some(d) => {
            let Document { nodes, trailing } = d;
            let mut nodes = nodes;
            let found = find_args_child(&nodes);
            match found {
                Some(i) => {
                    let ghost ns0 = nodes@;
                    let old = nodes.remove(i);
                    let ghost old_v = node_view(old);
                    let fresh = fresh_args_exec(old.leading, files);
                    let ghost fresh_v = node_view(fresh);
                    nodes.insert(i, fresh);
                    proof {
                        lemma_nodes_view(ns0);
                        lemma_nodes_view(nodes@);
                        assert(nodes@ =~= ns0.update(i as int, nodes@[i as int]));
                        assert(node_view(nodes@[i as int]) == fresh_v);
                        assert(old_v == nodes_view(ns0)[i as int]);
                        assert(fresh_v == fresh_args_node(nodes_view(ns0)[i as int].leading, fv));
                        assert(nodes_view(nodes@) =~~= nodes_view(ns0).update(i as int, fresh_v));
                    }
                    let r = Node {
                        leading,
                        name,
                        entries,
                        before_children,
                        children: Some(Document { nodes, trailing }),
                    };
                    assert(node_view(r) =~~= set_args_child(nv, fv));
                    r
                },
                None => {
                    if nodes.len() > 0 {
                        let ghost ns0 = nodes@;
                        let first = nodes.remove(0);
                        let ghost first_v = node_view(first);
                        let lead_copy = first.leading.clone();
                        let first2 = strip_blank_exec(first);
                        let ghost first2_v = node_view(first2);
                        nodes.insert(0, first2);
                        let fresh = fresh_args_exec(lead_copy, files);
                        let ghost fresh_v = node_view(fresh);
                        nodes.insert(0, fresh);
                        proof {
                            lemma_nodes_view(ns0);
                            lemma_nodes_view(nodes@);
                            assert(first_v == nodes_view(ns0)[0]);
                            assert(fresh_v == fresh_args_node(nodes_view(ns0)[0].leading, fv));
                            assert(first2_v == strip_blank_line(nodes_view(ns0)[0]));
                            assert(nodes@.len() == ns0.len() + 1);
                            assert(node_view(nodes@[0]) == fresh_v);
                            assert(node_view(nodes@[1]) == first2_v);
                            assert(forall|j: int|
                                2 <= j < nodes@.len() ==> nodes@[j] == ns0[j - 1]);
                            assert(nodes_view(nodes@) =~~= seq![fresh_v] + nodes_view(ns0).update(
                                0,
                                first2_v,
                            ));
                        }
                        let r = Node {
                            leading,
                            name,
                            entries,
                            before_children,
                            children: Some(Document { nodes, trailing }),
                        };
                        assert(node_view(r) =~~= set_args_child(nv, fv));
                        r
                    } else {
                        let fresh = fresh_args_exec(String::from_str(" "), files);
                        let ghost fresh_v = node_view(fresh);
                        nodes.push(fresh);
                        proof {
                            lemma_nodes_view(nodes@);
                            assert(node_view(nodes@[0]) == fresh_v);
                            assert(nodes_view(nodes@) =~~= seq![fresh_v]);
                        }
                        let r = Node {
                            leading,
                            name,
                            entries,
                            before_children,
                            children: Some(
                                Document { nodes, trailing: String::from_str(" ") },
                            ),
                        };
                        assert(node_view(r) =~~= set_args_child(nv, fv));
                        r
                    }
                },
            }
        },
    }
}

fn without_args_child(n: Node) -> (r: Node)
    ensures
        node_view(r) == remove_args_child(node_view(n)),
{
    let ghost nv = node_view(n);
    let Node { leading, name, entries, before_children, children } = n;
    match children {
        None => {
            let r = Node { leading, name, entries, before_children, children: None };
            assert(node_view(r) =~~= remove_args_child(nv));
            r
        },
        Some(d) => {
            let Document { nodes, trailing } = d;
            let mut nodes = nodes;
            let found = find_args_child(&nodes);
            match found {
                None => {
                    let r = Node {
                        leading,
                        name,
                        entries,
                        before_children,
                        children: Some(Document { nodes, trailing }),
                    };
                    assert(node_view(r) =~~= remove_args_child(nv));
                    r
                },
                Some(i) => {
                    let ghost ns0 = nodes@;
                    let _removed = nodes.remove(i);
                    proof {
                        lemma_nodes_view(ns0);
                        lemma_nodes_view(nodes@);
                        assert(nodes_view(nodes@) =~~= nodes_view(ns0).remove(i as int));
                    }
                    let r = Node {
                        leading,
                        name,
                        entries,
                        before_children,
                        children: Some(Document { nodes, trailing }),
                    };
                    assert(node_view(r) =~~= remove_args_child(nv));
                    r
                },
            }
        },
    }
}

/// Builds the rewritten pane: the `command` entry set to `command`, and the
/// `args` child replaced by the given filenames (or removed when there are
/// none), preserving attributes, siblings and formatting.
pub fn build_simplified_pane(pane: Node, command: &str, files: &Vec<String>) -> (r: Node)
    ensures
        node_view(r) == simplified_pane(node_view(pane), command@, strs_view(files@)),
{
    proof {
        reveal_strlit("command");
        assert("command"@ =~= command_chars());
    }
    let p2 = with_named_str(pane, "command", String::from_str(command));
    if files.len() > 0 {
        with_args_child(p2, files)
    } else {
        without_args_child(p2)
    }
}

// ---------------------------------------------------------------------------
// The executable pane processor
// ---------------------------------------------------------------------------

fn file_args_exec(simplified: &str) -> (r: Vec<String>)
    ensures
        strs_view(r@) == file_args_of(simplified@),
{
    proof {
        reveal_strlit("nvim ");
        assert("nvim "@ =~= nvim_chars() + seq![' ']);
    }
    if !has_prefix_exec(simplified, "nvim ") {
        let r: Vec<String> = Vec::new();
        assert(strs_view(r@) =~~= file_args_of(simplified@));
        return r;
    }
    let n = simplified.unicode_len();
    let rest = simplified.substring_char(5, n);
    let toks = crate::nvim::split_spaces_exec(rest);
    let ghost tv = strs_view(toks@);
    assert(tv == split_spaces(simplified@.subrange(5, simplified@.len() as int)));
    let mut out: Vec<String> = Vec::new();
    let mut i: usize = 0;
    proof {
        assert(strs_view(out@) =~~= nonempty_tokens(tv.take(0)));
    }
    while i < toks.len()
        invariant
            tv == strs_view(toks@),
            tv.len() == toks@.len(),
            0 <= i <= toks@.len(),
            strs_view(out@) == nonempty_tokens(tv.take(i as int)),
        decreases toks.len() - i,
    {
        let ghost pre = tv.take(i as int);
        proof {
            assert(tv.take(i + 1).drop_last() =~~= pre);
            assert(tv.take(i + 1).last() == tv[i as int]);
            assert(tv[i as int] == toks@[i as int]@);
        }
        if toks[i].unicode_len() > 0 {
            let ghost out0 = out@;
            out.push(toks[i].clone());
            proof {
                assert(strs_view(out@) =~~= strs_view(out0).push(toks@[i as int]@));
                assert(nonempty_tokens(tv.take(i + 1)) =~~= nonempty_tokens(pre) + seq![
                    tv[i as int],
                ]);
                assert(strs_view(out@) =~~= nonempty_tokens(tv.take(i + 1)));
            }
        } else {
            proof {
                assert(nonempty_tokens(tv.take(i + 1)) =~~= nonempty_tokens(pre));
            }
        }
        i = i + 1;
    }
    proof {
        assert(tv.take(tv.len() as int) =~~= tv);
    }
    out
}

fn build_full(cmd: &String, args: &Vec<String>) -> (r: String)
    ensures
        r@ == full_command(cmd@, strs_view(args@)),
{
    proof {
        reveal_strlit(" ");
        assert(" "@ =~= seq![' ']);
        assert(strs_view(args@).len() == args@.len());
    }
    if args.len() == 0 {
        let r = cmd.clone();
        assert(r@ == full_command(cmd@, strs_view(args@)));
        return r;
    }
    let mut r = cmd.clone();
    r.append(" ");
    let joined = join_exec(args);
    r.append(joined.as_str());
    assert(r@ =~= full_command(cmd@, strs_view(args@)));
    r
}

/// Applies the pane transform of the walk to one node, given the inherited
/// direnv flag: wraps the command under the flag, simplifies an editor
/// command otherwise, and records a change exactly when the pane is
/// rewritten.
pub fn process_pane(pane: Node, is_direnv: bool) -> (r: (Node, Vec<Changes>))
    ensures
        ({
            let s = pane_step(node_view(pane), is_direnv);
            node_view(r.0) == s.0 && changes_view(r.1@) == s.1
        }),
{
    proof {
        reveal_strlit("command");
        reveal_strlit("direnv");
        reveal_strlit("nvim");
        reveal_strlit("exec");
        reveal_strlit(".");
        reveal_strlit("direnv ");
        reveal_strlit(" ");
        assert("command"@ =~= command_chars());
        assert("direnv"@ =~= direnv_chars());
        assert("nvim"@ =~= nvim_chars());
        assert("exec"@ =~= exec_word_chars());
        assert("."@ =~= dot_chars());
        assert("direnv "@ =~= direnv_chars() + seq![' ']);
        assert(" "@ =~= seq![' ']);
    }
    let ghost nv = node_view(pane);
    let cmd_opt = pane.string_entry("command");
    match cmd_opt {
        None => {
            let cs: Vec<Changes> = Vec::new();
            assert(changes_view(cs@) =~~= Seq::<ChangeV>::empty());
            (pane, cs)
        },
        Some(cmd) => {
            let ghost cmd_v = cmd@;
            if is_direnv {
                if str_eq(cmd.as_str(), "direnv") {
                    let cs: Vec<Changes> = Vec::new();
                    assert(changes_view(cs@) =~~= Seq::<ChangeV>::empty());
                    (pane, cs)
                } else {
                    let args = pane.args_values();
                    let ghost args_v = strs_view(args@);
                    let full = build_full(&cmd, &args);
                    let mut newargs: Vec<String> = Vec::new();
                    newargs.push(String::from_str("exec"));
                    newargs.push(String::from_str("."));
                    if contains_exec(cmd.as_str(), "nvim") {
                        newargs.push(String::from_str("nvim"));
                        let simp = format_nvim(full.as_str());
                        let mut files = file_args_exec(simp.as_str());
                        if files.len() > 0 {
                            newargs.append(&mut files);
                        } else if args.len() > 0 {
                            let mut extra = args.clone();
                            newargs.append(&mut extra);
                        }
                    } else {
                        newargs.push(cmd.clone());
                        if args.len() > 0 {
                            let mut extra = args.clone();
                            newargs.append(&mut extra);
                        }
                    }
                    proof {
                        assert(strs_view(newargs@) =~~= direnv_args(cmd_v, args_v));
                    }
                    let joined = join_exec(&newargs);
                    let mut sc = String::from_str("direnv ");
                    sc.append(joined.as_str());
                    let new_pane = build_simplified_pane(pane, "direnv", &newargs);
                    let ch = Changes {
                        file_path: String::new(),
                        original_command: full,
                        simplified_command: sc,
                    };
                    let ghost ch_v = ch@;
                    let mut cs: Vec<Changes> = Vec::new();
                    cs.push(ch);
                    proof {
                        assert(ch_v.simplified_command =~= direnv_chars() + seq![' ']
                            + join_spaces(strs_view(newargs@)));
                        assert(changes_view(cs@) =~~= seq![ch_v]);
                        assert(changes_view(cs@) =~~= pane_step(nv, is_direnv).1);
                    }
                    (new_pane, cs)
                }
            } else if contains_exec(cmd.as_str(), "nvim") {
                let args = pane.args_values();
                let full = build_full(&cmd, &args);
                let simp = format_nvim(full.as_str());
                if str_eq(simp.as_str(), full.as_str()) {
                    let cs: Vec<Changes> = Vec::new();
                    assert(changes_view(cs@) =~~= Seq::<ChangeV>::empty());
                    (pane, cs)
                } else {
                    let files = file_args_exec(simp.as_str());
                    let new_pane = build_simplified_pane(pane, "nvim", &files);
                    let ch = Changes {
                        file_path: String::new(),
                        original_command: full,
                        simplified_command: simp,
                    };
                    let ghost ch_v = ch@;
                    let mut cs: Vec<Changes> = Vec::new();
                    cs.push(ch);
                    proof {
                        assert(changes_view(cs@) =~~= seq![ch_v]);
                        assert(changes_view(cs@) =~~= pane_step(nv, is_direnv).1);
                    }
                    (new_pane, cs)
                }
            } else {
                let cs: Vec<Changes> = Vec::new();
                assert(changes_view(cs@) =~~= Seq::<ChangeV>::empty());
                (pane, cs)
            }
        },
    }
}

// ---------------------------------------------------------------------------
// The executable tree walk
// ---------------------------------------------------------------------------

fn walk_children_exec(n: Node, flag: bool) -> (r: (Node, Vec<Changes>))
    ensures
        ({
            let s = walk_children(node_view(n), flag);
            node_view(r.0) == s.0 && changes_view(r.1@) == s.1
        }),
    decreases n, 1int,
{
    let ghost nv = node_view(n);
    let Node { leading, name, entries, before_children, children } = n;
    match children {
        None => {
            let r0 = Node { leading, name, entries, before_children, children: None };
            let cs: Vec<Changes> = Vec::new();
            proof {
                assert(node_view(r0) =~~= nv);
                assert(changes_view(cs@) =~~= Seq::<ChangeV>::empty());
            }
            (r0, cs)
        },
        Some(d) => {
            let ghost d_v = doc_view(d);
            let (d2, cs) = walk_doc_exec(d, flag);
            let r0 = Node { leading, name, entries, before_children, children: Some(d2) };
            proof {
                assert(node_view(r0) =~~= NodeV {
                    children: Some(walk_doc(d_v, flag).0),
                    ..nv
                });
            }
            (r0, cs)
        },
    }
}

/// Walks one node: a `tab` recomputes the direnv flag for its subtree, a
/// `pane` is rewritten after its descendants are walked, anything else only
/// passes the flag down.
pub fn walk_node_exec(n: Node, flag: bool) -> (r: (Node, Vec<Changes>))
    ensures
        ({
            let s = walk_node(node_view(n), flag);
            node_view(r.0) == s.0 && changes_view(r.1@) == s.1
        }),
    decreases n, 2int,
{
    proof {
        reveal_strlit("tab");
        reveal_strlit("pane");
        assert("tab"@ =~= tab_chars());
        assert("pane"@ =~= pane_chars());
    }
    let ghost nv = node_view(n);
    if str_eq(n.name.as_str(), "tab") {
        let f = n.direnv_tab();
        walk_children_exec(n, f)
    } else if str_eq(n.name.as_str(), "pane") {
        let (nw, cs_kids) = walk_children_exec(n, flag);
        let ghost kids_cs_v = changes_view(cs_kids@);
        let (nf, cs_own) = process_pane(nw, flag);
        let mut cs = cs_own;
        let mut kid = cs_kids;
        let ghost own_cs_v = changes_view(cs@);
        cs.append(&mut kid);
        proof {
            assert(changes_view(cs@) =~~= own_cs_v + kids_cs_v);
            assert(changes_view(cs@) =~~= walk_node(nv, flag).1);
        }
        (nf, cs)
    } else {
        walk_children_exec(n, flag)
    }
}

/// Walks a whole document with the direnv flag in scope.
#[verifier::loop_isolation(false)]
pub fn walk_doc_exec(d: Document, flag: bool) -> (r: (Document, Vec<Changes>))
    ensures
        ({
            let s = walk_doc(doc_view(d), flag);
            doc_view(r.0) == s.0 && changes_view(r.1@) == s.1
        }),
    decreases d, 4int,
{
    let ghost dv = doc_view(d);
    let ghost gd = d;
    let Document { nodes, trailing } = d;
    let mut rest = nodes;
    let mut out_nodes: Vec<Node> = Vec::new();
    let mut changes: Vec<Changes> = Vec::new();
    let ghost mut idx: int = 0;
    proof {
        assert(rest@ =~= gd.nodes@.skip(0));
        assert(nodes_view(out_nodes@) =~~= Seq::<NodeV>::empty());
        assert(changes_view(changes@) =~~= Seq::<ChangeV>::empty());
        assert(nodes_view(rest@) == dv.nodes);
        assert(walk_nodes(dv.nodes, flag).0 =~~= nodes_view(out_nodes@) + walk_nodes(
            nodes_view(rest@),
            flag,
        ).0);
        assert(walk_nodes(dv.nodes, flag).1 =~~= changes_view(changes@) + walk_nodes(
            nodes_view(rest@),
            flag,
        ).1);
    }
    while rest.len() > 0
        invariant
            dv == doc_view(gd),
            0 <= idx <= gd.nodes@.len(),
            rest@ == gd.nodes@.skip(idx),
            walk_nodes(dv.nodes, flag).0 == nodes_view(out_nodes@) + walk_nodes(
                nodes_view(rest@),
                flag,
            ).0,
            walk_nodes(dv.nodes, flag).1 == changes_view(changes@) + walk_nodes(
                nodes_view(rest@),
                flag,
            ).1,
        decreases rest.len(),
    {
        let ghost rest0 = rest@;
        let ghost rem = nodes_view(rest0);
        let head = rest.remove(0);
        proof {
            lemma_nodes_view(rest0);
            lemma_nodes_view(rest@);
            assert(head == gd.nodes@[idx]);
            assert(decreases_to!(gd => gd.nodes));
            assert(decreases_to!(gd.nodes => gd.nodes@));
            assert(decreases_to!(gd.nodes@ => gd.nodes@[idx]));
            assert(decreases_to!(gd => head));
            assert(rem.len() > 0);
            assert(rem[0] == node_view(head));
            assert(rest@ =~= rest0.drop_first());
            assert(nodes_view(rest@) =~~= rem.drop_first());
            assert(rest@ =~= gd.nodes@.skip(idx + 1));
        }
        let (n2, cs) = walk_node_exec(head, flag);
        let ghost out0 = out_nodes@;
        let ghost ch0 = changes@;
        let ghost cs_v = changes_view(cs@);
        out_nodes.push(n2);
        let mut cs_m = cs;
        let ghost cs_raw = cs_m@;
        changes.append(&mut cs_m);
        proof {
            idx = idx + 1;
            lemma_nodes_view(out_nodes@);
            lemma_nodes_view(out0);
            assert(nodes_view(out_nodes@) =~~= nodes_view(out0).push(node_view(
                out_nodes@.last(),
            )));
            assert(node_view(out_nodes@.last()) == walk_node(rem[0], flag).0);
            assert(changes@ == ch0 + cs_raw);
            assert(changes_view(cs_raw) == cs_v);
            assert(changes_view(changes@) =~~= changes_view(ch0) + cs_v);
            assert(walk_nodes(rem, flag).0 == seq![walk_node(rem[0], flag).0] + walk_nodes(
                rem.drop_first(),
                flag,
            ).0);
            assert(walk_nodes(rem, flag).1 == walk_node(rem[0], flag).1 + walk_nodes(
                rem.drop_first(),
                flag,
            ).1);
            assert(nodes_view(out0) + walk_nodes(rem, flag).0 =~~= nodes_view(out_nodes@)
                + walk_nodes(nodes_view(rest@), flag).0);
            assert(changes_view(ch0) + walk_nodes(rem, flag).1 =~~= changes_view(changes@)
                + walk_nodes(nodes_view(rest@), flag).1);
        }
    }
    proof {
        assert(nodes_view(rest@) =~~= Seq::<NodeV>::empty());
        assert(walk_nodes(nodes_view(rest@), flag).0 =~~= Seq::<NodeV>::empty());
        assert(walk_nodes(nodes_view(rest@), flag).1 =~~= Seq::<ChangeV>::empty());
        assert(walk_nodes(dv.nodes, flag).0 =~~= nodes_view(out_nodes@));
        assert(walk_nodes(dv.nodes, flag).1 =~~= changes_view(changes@));
    }
    let r0 = Document { nodes: out_nodes, trailing };
    proof {
        assert(doc_view(r0) =~~= walk_doc(dv, flag).0);
    }
    (r0, changes)
}

// ---------------------------------------------------------------------------
// Byte stability when nothing changes
// ---------------------------------------------------------------------------

pub(crate) proof fn lemma_pane_step_no_changes(n: NodeV, flag: bool)
    ensures
        pane_step(n, flag).1.len() == 0 ==> pane_step(n, flag).0 == n,
{
}

pub(crate) proof fn lemma_walk_children_no_changes(n: NodeV, flag: bool)
    ensures
        walk_children(n, flag).1.len() == 0 ==> walk_children(n, flag).0 == n,
    decreases n, 1int,
{
    match n.children {
        None => {},
        Some(d) => {
            lemma_walk_doc_no_changes(d, flag);
            if walk_children(n, flag).1.len() == 0 {
                assert(walk_doc(d, flag).0 == d);
                assert(NodeV { children: Some(d), ..n } =~~= n);
            }
        },
    }
}

pub(crate) proof fn lemma_walk_node_no_changes(n: NodeV, flag: bool)
    ensures
        walk_node(n, flag).1.len() == 0 ==> walk_node(n, flag).0 == n,
    decreases n, 2int,
{
    lemma_walk_children_no_changes(n, is_direnv_tab(n));
    lemma_walk_children_no_changes(n, flag);
    if n.name == pane_chars() {
        let kids = walk_children(n, flag);
        lemma_pane_step_no_changes(kids.0, flag);
    }
}

pub(crate) proof fn lemma_walk_nodes_no_changes(ns: Seq<NodeV>, flag: bool)
    ensures
        walk_nodes(ns, flag).1.len() == 0 ==> walk_nodes(ns, flag).0 == ns,
    decreases ns, 3int,
{
    if ns.len() == 0 {
        assert(walk_nodes(ns, flag).0 =~~= ns);
    } else {
        lemma_walk_node_no_changes(ns[0], flag);
        lemma_walk_nodes_no_changes(ns.drop_first(), flag);
        if walk_nodes(ns, flag).1.len() == 0 {
            assert(seq![ns[0]] + ns.drop_first() =~~= ns);
        }
    }
}

/// A walk that records no change leaves the document untouched.
pub proof fn lemma_walk_doc_no_changes(d: DocV, flag: bool)
    ensures
        walk_doc(d, flag).1.len() == 0 ==> walk_doc(d, flag).0 == d,
    decreases d, 4int,
{
    lemma_walk_nodes_no_changes(d.nodes, flag);
    if walk_doc(d, flag).1.len() == 0 {
        assert(DocV { nodes: d.nodes, trailing: d.trailing } =~~= d);
    }
}

// ---------------------------------------------------------------------------
// Whole-file processing
// ---------------------------------------------------------------------------

/// Processes layout text: parses it, walks the tree (direnv flag false at top
/// level), and re-serializes. Text in the grammar — the serialization of any
/// well-formed document — is parsed and walked, and the result is exactly the
/// walked document's serialization with the walk's change records. Text the
/// grammar does not cover is returned unchanged with no change records; so is
/// a file where nothing had to change, byte for byte.
pub fn process_kdl_content(content: &str) -> (r: (String, Vec<Changes>))
    ensures
        r.1@.len() == 0 ==> r.0@ == content@,
        (r.0@ == content@ && r.1@.len() == 0) || (exists|dv: DocV|
            wf_doc(dv) && ser_doc(dv) == content@ && r.0@ == ser_doc(walk_doc(dv, false).0)
                && changes_view(r.1@) == walk_doc(dv, false).1),
        (exists|dv: DocV| wf_doc(dv) && ser_doc(dv) == content@) ==> (exists|dv: DocV|
            wf_doc(dv) && ser_doc(dv) == content@ && r.0@ == ser_doc(walk_doc(dv, false).0)
                && changes_view(r.1@) == walk_doc(dv, false).1),
{
    match parse_document(content) {
        None => {
            let cs: Vec<Changes> = Vec::new();
            (String::from_str(content), cs)
        },
        Some(d) => {
            let ghost dv = doc_view(d);
            let (d2, changes) = walk_doc_exec(d, false);
            let out = serialize_doc(&d2);
            proof {
                if changes@.len() == 0 {
                    assert(changes_view(changes@) =~~= Seq::<ChangeV>::empty());
                    lemma_walk_doc_no_changes(dv, false);
                    assert(doc_view(d2) == dv);
                }
                assert(wf_doc(dv) && ser_doc(dv) == content@ && out@ == ser_doc(
                    walk_doc(dv, false).0,
                ) && changes_view(changes@) == walk_doc(dv, false).1);
            }
            (out, changes)
        },
    }
}

} // verus!
