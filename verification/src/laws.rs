//! The laws of the transform: running it on its own output changes nothing,
//! and launcher-wrapping happens under a marked tab and nowhere else.

use crate::document::DocV;
use crate::document::NodeV;
use crate::document::EntryV;
use crate::document::ValueV;
use crate::kdl::ChangeV;
use crate::kdl::args_chars;
use crate::kdl::args_child_index;
use crate::kdl::command_chars;
use crate::kdl::command_of;
use crate::kdl::direnv_chars;
use crate::kdl::file_args_of;
use crate::kdl::fresh_args_node;
use crate::kdl::full_command;
use crate::kdl::is_direnv_tab;
use crate::kdl::lemma_args_child_index_prefix;
use crate::kdl::lemma_named_entry_index_prefix;
use crate::kdl::named_entry_index;
use crate::kdl::nonempty_tokens;
use crate::kdl::pane_args;
use crate::kdl::pane_chars;
use crate::kdl::pane_step;
use crate::kdl::positional_str_values;
use crate::kdl::remove_args_child;
use crate::kdl::set_args_child;
use crate::kdl::set_command_value;
use crate::kdl::set_named_str;
use crate::kdl::str_args_entries;
use crate::kdl::strip_blank_line;
use crate::kdl::tab_chars;
use crate::kdl::walk_children;
use crate::kdl::walk_doc;
use crate::kdl::walk_node;
use crate::kdl::walk_nodes;
use crate::nvim::contains_seq;
use crate::nvim::editor_head;
use crate::nvim::has_prefix;
use crate::nvim::join_spaces;
use crate::nvim::lemma_split_join;
use crate::nvim::lemma_split_no_space;
use crate::nvim::lemma_split_spaces_tokens;
use crate::nvim::lemma_trailing_run_bounds;
use crate::nvim::lemma_trailing_run_char;
use crate::nvim::nvim_chars;
use crate::nvim::occurs_at;
use crate::nvim::scan_stop;
use crate::nvim::simplify_command;
use crate::nvim::space_free;
use crate::nvim::split_spaces;
use crate::nvim::trailing_run;
use vstd::prelude::*;

verus! {

// ---------------------------------------------------------------------------
// The simplifier is a projection: its output is its own fixed point
// ---------------------------------------------------------------------------

/// Every token of the trailing run passes the scan.
proof fn lemma_trailing_run_good(ts: Seq<Seq<char>>)
    ensures
        forall|j: int|
            ts.len() - trailing_run(ts) <= j < ts.len() ==> !scan_stop(#[trigger] ts[j]),
    decreases ts.len(),
{
    if ts.len() <= 1 {
    } else if scan_stop(ts.last()) {
    } else {
        lemma_trailing_run_good(ts.drop_last());
        lemma_trailing_run_bounds(ts.drop_last());
        assert forall|j: int|
            ts.len() - trailing_run(ts) <= j < ts.len() implies !scan_stop(#[trigger] ts[j]) by {
            if j < ts.len() - 1 {
                assert(0 <= j < ts.drop_last().len());
                assert(ts.drop_last()[j] == ts[j]);
                assert(!scan_stop(ts.drop_last()[j]));
            }
        }
    }
}

/// Dropping empty tokens keeps every good property of the tokens and leaves
/// only nonempty ones.
proof fn lemma_nonempty_tokens_good(ts: Seq<Seq<char>>)
    requires
        forall|i: int| 0 <= i < ts.len() ==> space_free(#[trigger] ts[i]) && !scan_stop(ts[i]),
    ensures
        forall|i: int|
            0 <= i < nonempty_tokens(ts).len() ==> space_free(#[trigger] nonempty_tokens(ts)[i])
                && !scan_stop(nonempty_tokens(ts)[i]) && nonempty_tokens(ts)[i].len() > 0,
    decreases ts.len(),
{
    if ts.len() == 0 {
    } else {
        assert(forall|i: int|
            0 <= i < ts.drop_last().len() ==> #[trigger] ts.drop_last()[i] == ts[i]);
        lemma_nonempty_tokens_good(ts.drop_last());
        let pre = nonempty_tokens(ts.drop_last());
        assert forall|i: int|
            0 <= i < nonempty_tokens(ts).len() implies space_free(
            #[trigger] nonempty_tokens(ts)[i],
        ) && !scan_stop(nonempty_tokens(ts)[i]) && nonempty_tokens(ts)[i].len() > 0 by {
            if i < pre.len() {
                assert(nonempty_tokens(ts)[i] == pre[i]);
            } else {
                assert(nonempty_tokens(ts)[i] == ts.last());
            }
        }
    }
}

proof fn lemma_nvim_token_good()
    ensures
        space_free(nvim_chars()),
        editor_head(nvim_chars()),
        nvim_chars().len() == 4,
{
    assert(nvim_chars().subrange(0, 4) =~= nvim_chars());
}

/// The filenames of `nvim <run...>` are exactly the nonempty tokens of the
/// run.
proof fn lemma_file_args_of_run(run: Seq<Seq<char>>)
    requires
        run.len() >= 1,
        forall|i: int| 0 <= i < run.len() ==> space_free(#[trigger] run[i]),
    ensures
        file_args_of(nvim_chars() + seq![' '] + join_spaces(run)) == nonempty_tokens(run),
{
    let simp = nvim_chars() + seq![' '] + join_spaces(run);
    assert(has_prefix(simp, nvim_chars() + seq![' '])) by {
        assert(simp.subrange(0, 5) =~= nvim_chars() + seq![' ']);
    }
    assert(simp.subrange(5, simp.len() as int) =~= join_spaces(run));
    lemma_split_join(run);
}

/// Simplifying `nvim <files...>` again yields the same command, for any
/// space-free files that pass the scan.
proof fn lemma_simplify_fixed_point(files: Seq<Seq<char>>)
    requires
        files.len() >= 1,
        forall|i: int|
            0 <= i < files.len() ==> space_free(#[trigger] files[i]) && !scan_stop(files[i]),
    ensures
        simplify_command(nvim_chars() + seq![' '] + join_spaces(files)) == nvim_chars() + seq![' ']
            + join_spaces(files),
{
    lemma_nvim_token_good();
    let tokens = seq![nvim_chars()] + files;
    assert(forall|i: int|
        0 <= i < tokens.len() ==> space_free(#[trigger] tokens[i])) by {
        assert(tokens[0] == nvim_chars());
        assert(forall|i: int| 1 <= i < tokens.len() ==> tokens[i] == files[i - 1]);
    }
    lemma_split_join(tokens);
    let full = nvim_chars() + seq![' '] + join_spaces(files);
    assert(tokens.drop_first() =~~= files);
    assert(join_spaces(tokens) == tokens[0] + seq![' '] + join_spaces(files));
    assert(join_spaces(tokens) =~= full);
    assert(split_spaces(full) =~~= tokens);
    assert(editor_head(tokens[0]));
    assert forall|j: int|
        tokens.len() - files.len() <= j < tokens.len() implies !scan_stop(
        #[trigger] tokens[j],
    ) by {
        assert(tokens[j] == files[j - 1]);
    }
    lemma_trailing_run_char(tokens, files.len() as int);
    assert(trailing_run(tokens) == files.len());
    assert(tokens.subrange(tokens.len() - files.len(), tokens.len() as int) =~~= files);
}

/// Simplifying the command rebuilt from a simplification's own filenames
/// changes nothing further.
proof fn lemma_simplified_full_stable(s: Seq<char>)
    requires
        simplify_command(s) != s,
    ensures
        ({
            let files = file_args_of(simplify_command(s));
            simplify_command(full_command(nvim_chars(), files)) == full_command(
                nvim_chars(),
                files,
            )
        }),
{
    lemma_nvim_token_good();
    let ts = split_spaces(s);
    let k = trailing_run(ts);
    let simp = simplify_command(s);
    assert(editor_head(ts[0]));
    lemma_trailing_run_bounds(ts);
    crate::nvim::lemma_split_spaces_len(s);
    if k == 0 {
        assert(simp == nvim_chars());
        assert(!has_prefix(simp, nvim_chars() + seq![' ']));
        assert(file_args_of(simp) =~~= Seq::<Seq<char>>::empty());
        lemma_split_no_space(nvim_chars());
        assert(split_spaces(nvim_chars()) == seq![nvim_chars()]);
        assert(trailing_run(seq![nvim_chars()]) == 0);
    } else {
        let run = ts.subrange(ts.len() - k, ts.len() as int);
        assert(simp == nvim_chars() + seq![' '] + join_spaces(run));
        lemma_split_spaces_tokens(s);
        assert(forall|i: int| 0 <= i < run.len() ==> space_free(#[trigger] run[i])) by {
            assert(forall|i: int|
                0 <= i < run.len() ==> run[i] == #[trigger] ts[ts.len() - k + i]);
        }
        lemma_trailing_run_good(ts);
        assert(forall|i: int| 0 <= i < run.len() ==> !scan_stop(#[trigger] run[i])) by {
            assert(forall|i: int|
                0 <= i < run.len() ==> run[i] == #[trigger] ts[ts.len() - k + i]);
        }
        lemma_file_args_of_run(run);
        let files = file_args_of(simp);
        assert(files == nonempty_tokens(run));
        lemma_nonempty_tokens_good(run);
        if files.len() == 0 {
            lemma_split_no_space(nvim_chars());
            assert(trailing_run(seq![nvim_chars()]) == 0);
            assert(simplify_command(nvim_chars()) == nvim_chars());
        } else {
            lemma_simplify_fixed_point(files);
        }
    }
}

// ---------------------------------------------------------------------------
// What the mutations do to the attributes the transform reads
// ---------------------------------------------------------------------------

/// What a first-match index means.
proof fn lemma_named_index_facts(es: Seq<EntryV>, nm: Seq<char>)
    ensures
        ({
            let r = named_entry_index(es, nm);
            &&& (r == -1 || (0 <= r < es.len() && es[r].name == Some(nm)))
            &&& (r == -1 ==> forall|j: int| 0 <= j < es.len() ==> (#[trigger] es[j]).name != Some(
                nm,
            ))
            &&& (r >= 0 ==> forall|j: int| 0 <= j < r ==> (#[trigger] es[j]).name != Some(nm))
        }),
    decreases es.len(),
{
    if es.len() == 0 {
    } else if es[0].name == Some(nm) {
    } else {
        lemma_named_index_facts(es.drop_first(), nm);
        let r0 = named_entry_index(es.drop_first(), nm);
        let r = named_entry_index(es, nm);
        if r0 == -1 {
            assert forall|j: int| 0 <= j < es.len() implies (#[trigger] es[j]).name != Some(
                nm,
            ) by {
                if j > 0 {
                    assert(es.drop_first()[j - 1] == es[j]);
                }
            }
        } else {
            assert(es[r] == es.drop_first()[r0]);
            assert forall|j: int| 0 <= j < r implies (#[trigger] es[j]).name != Some(nm) by {
                if j > 0 {
                    assert(es.drop_first()[j - 1] == es[j]);
                }
            }
        }
    }
}

proof fn lemma_args_index_facts(ns: Seq<NodeV>)
    ensures
        ({
            let r = args_child_index(ns);
            &&& (r == -1 || (0 <= r < ns.len() && ns[r].name == args_chars()))
            &&& (r == -1 ==> forall|j: int|
                0 <= j < ns.len() ==> (#[trigger] ns[j]).name != args_chars())
            &&& (r >= 0 ==> forall|j: int| 0 <= j < r ==> (#[trigger] ns[j]).name != args_chars())
        }),
    decreases ns.len(),
{
    if ns.len() == 0 {
    } else if ns[0].name == args_chars() {
    } else {
        lemma_args_index_facts(ns.drop_first());
        let r0 = args_child_index(ns.drop_first());
        let r = args_child_index(ns);
        if r0 == -1 {
            assert forall|j: int| 0 <= j < ns.len() implies (#[trigger] ns[j]).name
                != args_chars() by {
                if j > 0 {
                    assert(ns.drop_first()[j - 1] == ns[j]);
                }
            }
        } else {
            assert(ns[r] == ns.drop_first()[r0]);
            assert forall|j: int| 0 <= j < r implies (#[trigger] ns[j]).name != args_chars() by {
                if j > 0 {
                    assert(ns.drop_first()[j - 1] == ns[j]);
                }
            }
        }
    }
}

/// Updating an entry without changing its name leaves every first-match
/// index as it was.
proof fn lemma_named_index_update(es: Seq<EntryV>, i: int, e2: EntryV, nm: Seq<char>)
    requires
        0 <= i < es.len(),
        e2.name == es[i].name,
    ensures
        named_entry_index(es.update(i, e2), nm) == named_entry_index(es, nm),
{
    let es2 = es.update(i, e2);
    lemma_named_index_facts(es, nm);
    let r = named_entry_index(es, nm);
    if r == -1 {
        assert(forall|j: int| 0 <= j < es2.len() ==> (#[trigger] es2[j]).name == es[j].name);
        lemma_named_entry_index_prefix(es2, nm, es2.len() as int);
    } else {
        assert(forall|j: int| 0 <= j < r ==> (#[trigger] es2[j]).name == es[j].name);
        assert(es2[r].name == Some(nm));
        lemma_named_entry_index_prefix(es2, nm, r);
    }
}

/// After `set_command_value` with an existing command entry, the command
/// reads back as the value set, and the positional arguments are untouched.
proof fn lemma_set_command_reads(n: NodeV, v: Seq<char>)
    requires
        command_of(n) is Some,
    ensures
        command_of(set_command_value(n, v)) == Some(v),
        pane_args(set_command_value(n, v)) == pane_args(n),
        set_command_value(n, v).name == n.name,
        set_command_value(n, v).children == n.children,
{
    let i = named_entry_index(n.entries, command_chars());
    assert(i >= 0);
    let e2 = EntryV {
        leading: n.entries[i].leading,
        name: n.entries[i].name,
        value: ValueV::Str(v),
    };
    lemma_named_index_facts(n.entries, command_chars());
    lemma_named_index_update(n.entries, i, e2, command_chars());
}

/// The fresh entries of an args node read back as exactly the files they
/// were built from.
proof fn lemma_positional_of_str_args(files: Seq<Seq<char>>)
    ensures
        positional_str_values(str_args_entries(files)) == files,
    decreases files.len(),
{
    let es = str_args_entries(files);
    if files.len() == 0 {
        assert(es.len() == 0);
        assert(positional_str_values(es) =~~= files);
    } else {
        lemma_positional_of_str_args(files.drop_last());
        assert(es.drop_last() =~~= str_args_entries(files.drop_last()));
        assert(es.last() == EntryV {
            leading: seq![' '],
            name: None,
            value: ValueV::Str(files.last()),
        });
        assert(positional_str_values(es) =~~= positional_str_values(es.drop_last()) + seq![
            files.last(),
        ]);
        assert(files.drop_last() + seq![files.last()] =~~= files);
    }
}

/// After `set_args_child`, the pane's positional arguments are exactly the
/// files, and the command entries are untouched.
proof fn lemma_set_args_reads(n: NodeV, files: Seq<Seq<char>>)
    ensures
        pane_args(set_args_child(n, files)) == files,
        set_args_child(n, files).entries == n.entries,
        set_args_child(n, files).name == n.name,
{
    lemma_positional_of_str_args(files);
    let y = set_args_child(n, files);
    match n.children {
        None => {
            let m = y.children->Some_0;
            assert(args_child_index(m.nodes) == 0);
        },
        Some(d) => {
            let i = args_child_index(d.nodes);
            lemma_args_index_facts(d.nodes);
            if i >= 0 {
                let m = y.children->Some_0;
                let fresh = fresh_args_node(d.nodes[i].leading, files);
                assert(m.nodes == d.nodes.update(i, fresh));
                assert(forall|j: int| 0 <= j < i ==> (#[trigger] m.nodes[j]).name == d.nodes[j].name);
                assert(m.nodes[i].name == args_chars());
                lemma_args_child_index_prefix(m.nodes, i);
                assert(args_child_index(m.nodes) == i);
            } else if d.nodes.len() > 0 {
                let m = y.children->Some_0;
                assert(m.nodes[0].name == args_chars());
                lemma_args_child_index_prefix(m.nodes, 0);
                assert(args_child_index(m.nodes) == 0);
            } else {
                let m = y.children->Some_0;
                assert(args_child_index(m.nodes) == 0);
            }
        },
    }
}

/// After `remove_args_child` on a node with at most one args child, no args
/// child is left: the pane's positional arguments are empty.
proof fn lemma_remove_args_reads(n: NodeV)
    requires
        match n.children {
            None => true,
            Some(d) => at_most_one_args(d.nodes),
        },
    ensures
        pane_args(remove_args_child(n)) == Seq::<Seq<char>>::empty(),
        remove_args_child(n).entries == n.entries,
        remove_args_child(n).name == n.name,
{
    let y = remove_args_child(n);
    match n.children {
        None => {},
        Some(d) => {
            let i = args_child_index(d.nodes);
            lemma_args_index_facts(d.nodes);
            if i < 0 {
                assert(pane_args(y) =~~= Seq::<Seq<char>>::empty());
            } else {
                let m = y.children->Some_0;
                assert(m.nodes == d.nodes.remove(i));
                assert forall|j: int|
                    0 <= j < m.nodes.len() implies (#[trigger] m.nodes[j]).name
                    != args_chars() by {
                    if j < i {
                        assert(m.nodes[j] == d.nodes[j]);
                    } else {
                        assert(m.nodes[j] == d.nodes[j + 1]);
                        assert(d.nodes[j + 1].name != args_chars());
                    }
                }
                lemma_args_child_index_prefix(m.nodes, m.nodes.len() as int);
                assert(args_child_index(m.nodes) == -1);
            }
        },
    }
}

// ---------------------------------------------------------------------------
// At most one args child per node
// ---------------------------------------------------------------------------

/// No two children of one node are both named `args`.
pub open spec fn at_most_one_args(ns: Seq<NodeV>) -> bool {
    forall|i: int, j: int|
        0 <= i < j < ns.len() && (#[trigger] ns[i]).name == args_chars() ==> (
        #[trigger] ns[j]).name != args_chars()
}

pub open spec fn unique_args_node(n: NodeV) -> bool
    decreases n, 1int,
{
    match n.children {
        None => true,
        Some(d) => at_most_one_args(d.nodes) && unique_args_nodes(d.nodes),
    }
}

pub open spec fn unique_args_nodes(ns: Seq<NodeV>) -> bool
    decreases ns, 2int,
{
    if ns.len() == 0 {
        true
    } else {
        unique_args_node(ns[0]) && unique_args_nodes(ns.drop_first())
    }
}

/// Throughout the document, no node has two `args` children.
pub open spec fn unique_args_doc(d: DocV) -> bool {
    unique_args_nodes(d.nodes)
}

// ---------------------------------------------------------------------------
// Stability: nodes the walk has nothing left to do on
// ---------------------------------------------------------------------------

/// The walk maps the node list elementwise.
proof fn lemma_walk_nodes_index(ns: Seq<NodeV>, flag: bool)
    ensures
        walk_nodes(ns, flag).0.len() == ns.len(),
        forall|i: int|
            0 <= i < ns.len() ==> walk_nodes(ns, flag).0[i] == walk_node(#[trigger] ns[i], flag).0,
    decreases ns.len(),
{
    if ns.len() > 0 {
        lemma_walk_nodes_index(ns.drop_first(), flag);
        let h = walk_node(ns[0], flag);
        let t = walk_nodes(ns.drop_first(), flag);
        assert forall|i: int|
            0 <= i < ns.len() implies walk_nodes(ns, flag).0[i] == walk_node(
            #[trigger] ns[i],
            flag,
        ).0 by {
            if i > 0 {
                assert(walk_nodes(ns, flag).0[i] == t.0[i - 1]);
                assert(ns.drop_first()[i - 1] == ns[i]);
                assert(t.0[i - 1] == walk_node(ns.drop_first()[i - 1], flag).0);
            }
        }
    }
}

/// The pane rewrite never renames the node.
proof fn lemma_pane_step_keeps_name(n: NodeV, flag: bool)
    ensures
        pane_step(n, flag).0.name == n.name,
{
    match command_of(n) {
        None => {},
        Some(cmd) => {
            assert(set_named_str(n, command_chars(), direnv_chars()).name == n.name);
            assert(set_named_str(n, command_chars(), nvim_chars()).name == n.name);
        },
    }
}

/// Nor does any walk step.
proof fn lemma_walk_node_keeps_name(n: NodeV, flag: bool)
    ensures
        walk_node(n, flag).0.name == n.name,
{
    if n.name == pane_chars() {
        let kids = walk_children(n, flag);
        lemma_pane_step_keeps_name(kids.0, flag);
    }
}

/// A node list whose walk returned it unchanged with no change record is
/// stable node by node.
proof fn lemma_stable_elementwise(ns: Seq<NodeV>, flag: bool)
    requires
        walk_nodes(ns, flag).0 == ns,
        walk_nodes(ns, flag).1 == Seq::<ChangeV>::empty(),
    ensures
        forall|i: int|
            0 <= i < ns.len() ==> walk_node(#[trigger] ns[i], flag) == (
                ns[i],
                Seq::<ChangeV>::empty(),
            ),
    decreases ns.len(),
{
    if ns.len() > 0 {
        let h = walk_node(ns[0], flag);
        let t = walk_nodes(ns.drop_first(), flag);
        assert(walk_nodes(ns, flag).1 == h.1 + t.1);
        assert((h.1 + t.1).len() == 0);
        assert(h.1.len() == 0 && t.1.len() == 0);
        assert(h.1 =~~= Seq::<ChangeV>::empty());
        assert(t.1 =~~= Seq::<ChangeV>::empty());
        assert(h.0 == (seq![h.0] + t.0)[0]);
        assert(h.0 == ns[0]);
        assert(h == (ns[0], Seq::<ChangeV>::empty()));
        assert(t.0 =~~= ns.drop_first()) by {
            assert(t.0.len() == ns.len() - 1);
            assert(forall|j: int| 0 <= j < t.0.len() ==> t.0[j] == (seq![h.0] + t.0)[j + 1]);
        }
        lemma_stable_elementwise(ns.drop_first(), flag);
        assert forall|i: int|
            0 <= i < ns.len() implies walk_node(#[trigger] ns[i], flag) == (
            ns[i],
            Seq::<ChangeV>::empty(),
        ) by {
            if i > 0 {
                assert(ns.drop_first()[i - 1] == ns[i]);
                assert(walk_node(ns.drop_first()[i - 1], flag) == (
                    ns.drop_first()[i - 1],
                    Seq::<ChangeV>::empty(),
                ));
            }
        }
    }
}

/// Conversely, a list of stable nodes is a stable list.
proof fn lemma_nodes_stable_of_all(ns: Seq<NodeV>, flag: bool)
    requires
        forall|i: int|
            0 <= i < ns.len() ==> walk_node(#[trigger] ns[i], flag) == (
                ns[i],
                Seq::<ChangeV>::empty(),
            ),
    ensures
        walk_nodes(ns, flag) == (ns, Seq::<ChangeV>::empty()),
    decreases ns.len(),
{
    if ns.len() == 0 {
        assert(walk_nodes(ns, flag).0 =~~= ns);
        assert(walk_nodes(ns, flag) == (ns, Seq::<ChangeV>::empty()));
    } else {
        assert(forall|j: int|
            0 <= j < ns.drop_first().len() ==> #[trigger] ns.drop_first()[j] == ns[j + 1]);
        lemma_nodes_stable_of_all(ns.drop_first(), flag);
        assert(walk_node(ns[0], flag) == (ns[0], Seq::<ChangeV>::empty()));
        assert(walk_nodes(ns, flag).0 =~~= ns);
        assert(walk_nodes(ns, flag).1 =~~= Seq::<ChangeV>::empty());
        assert(walk_nodes(ns, flag) == (ns, Seq::<ChangeV>::empty()));
    }
}

/// A stable document: walking it again does nothing. Stated over the pieces
/// the walk is made of.
proof fn lemma_fresh_args_stable(l: Seq<char>, files: Seq<Seq<char>>, flag: bool)
    ensures
        walk_node(fresh_args_node(l, files), flag) == (
            fresh_args_node(l, files),
            Seq::<ChangeV>::empty(),
        ),
{
    let a = fresh_args_node(l, files);
    assert(a.name != tab_chars()) by {
        assert(args_chars().len() != tab_chars().len());
    }
    assert(a.name != pane_chars()) by {
        assert(args_chars()[0] != pane_chars()[0]);
    }
    assert(walk_node(a, flag) == walk_children(a, flag));
    assert(walk_children(a, flag) == (a, Seq::<ChangeV>::empty()));
}

/// A node equal to a stable one in everything but its leading whitespace is
/// itself stable: the walk never reads the leading whitespace.
proof fn lemma_stable_same_but_leading(a: NodeV, b: NodeV, flag: bool)
    requires
        walk_node(a, flag) == (a, Seq::<ChangeV>::empty()),
        b.name == a.name,
        b.entries == a.entries,
        b.before_children == a.before_children,
        b.children == a.children,
    ensures
        walk_node(b, flag) == (b, Seq::<ChangeV>::empty()),
{
    assert(is_direnv_tab(b) == is_direnv_tab(a));
    assert(command_of(b) == command_of(a));
    assert(pane_args(b) == pane_args(a));
    if a.name == pane_chars() {
        let kids_a = walk_children(a, flag);
        let own_a = pane_step(kids_a.0, flag);
        assert(own_a.1 + kids_a.1 =~~= Seq::<ChangeV>::empty() ==> own_a.1.len() == 0
            && kids_a.1.len() == 0);
        assert(own_a.1 + kids_a.1 == Seq::<ChangeV>::empty());
        assert(own_a.1.len() == 0 && kids_a.1.len() == 0);
        crate::kdl::lemma_walk_children_no_changes(a, flag);
        assert(kids_a.1 =~~= Seq::<ChangeV>::empty());
        assert(kids_a.0 == a);
        crate::kdl::lemma_pane_step_no_changes(a, flag);
        assert(pane_step(a, flag).0 == a);
        // walking b's children does nothing either
        let kids_b = walk_children(b, flag);
        match a.children {
            None => {
                assert(kids_b == (b, Seq::<ChangeV>::empty()));
            },
            Some(ch) => {
                assert(walk_children(a, flag).0 == a);
                assert(NodeV { children: Some(walk_doc(ch, flag).0), ..a } == a);
                assert(Some(walk_doc(ch, flag).0) == a.children);
                assert(walk_doc(ch, flag).0 == ch);
                assert(NodeV { children: Some(ch), ..b } =~~= b);
                assert(kids_b == (b, walk_doc(ch, flag).1));
                assert(kids_b == (b, Seq::<ChangeV>::empty()));
            },
        }
        // and the pane rewrite takes the same no-op branch on b
        match command_of(a) {
            None => {
                assert(pane_step(b, flag) == (b, Seq::<ChangeV>::empty()));
            },
            Some(cmd) => {
                if flag {
                    assert(cmd == direnv_chars()) by {
                        if cmd != direnv_chars() {
                            assert(pane_step(a, flag).1.len() == 1);
                        }
                    }
                    assert(pane_step(b, flag) == (b, Seq::<ChangeV>::empty()));
                } else if contains_seq(cmd, nvim_chars()) {
                    let args = pane_args(a);
                    let f = full_command(cmd, args);
                    assert(simplify_command(f) == f) by {
                        if simplify_command(f) != f {
                            assert(pane_step(a, flag).1.len() == 1);
                        }
                    }
                    assert(pane_step(b, flag) == (b, Seq::<ChangeV>::empty()));
                } else {
                    assert(pane_step(b, flag) == (b, Seq::<ChangeV>::empty()));
                }
            },
        }
        assert(walk_node(b, flag) == (pane_step(kids_b.0, flag).0, pane_step(kids_b.0, flag).1
            + kids_b.1));
        assert(pane_step(kids_b.0, flag).1 + kids_b.1 =~~= Seq::<ChangeV>::empty());
        assert(walk_node(b, flag) == (b, Seq::<ChangeV>::empty()));
    } else {
        let f = if a.name == tab_chars() {
            is_direnv_tab(a)
        } else {
            flag
        };
        assert(walk_node(a, flag) == walk_children(a, f));
        assert(walk_node(b, flag) == walk_children(b, f));
        match a.children {
            None => {},
            Some(ch) => {
                assert(NodeV { children: Some(walk_doc(ch, f).0), ..a } == a);
                assert(Some(walk_doc(ch, f).0) == a.children);
                assert(walk_doc(ch, f).0 == ch);
                assert(NodeV { children: Some(ch), ..b } =~~= b);
            },
        }
    }
}

/// Replacing or inserting the args child of a node with walked children
/// leaves children that a second walk passes over.
proof fn lemma_set_args_children_stable(x: NodeV, files: Seq<Seq<char>>, flag: bool)
    requires
        match x.children {
            None => true,
            Some(d) => walk_doc(d, flag) == (d, Seq::<ChangeV>::empty()),
        },
    ensures
        ({
            let m = set_args_child(x, files).children->Some_0;
            walk_doc(m, flag) == (m, Seq::<ChangeV>::empty())
        }),
{
    let m = set_args_child(x, files).children->Some_0;
    match x.children {
        None => {
            lemma_fresh_args_stable(seq![' '], files, flag);
            lemma_nodes_stable_of_all(m.nodes, flag);
            assert(walk_doc(m, flag).0 =~~= m);
        },
        Some(d) => {
            let w = walk_nodes(d.nodes, flag);
            assert(walk_doc(d, flag).0 == DocV { nodes: w.0, trailing: d.trailing });
            assert(w.0 == d.nodes && w.1 == Seq::<ChangeV>::empty());
            lemma_stable_elementwise(d.nodes, flag);
            let i = args_child_index(d.nodes);
            lemma_args_index_facts(d.nodes);
            if i >= 0 {
                let fresh = fresh_args_node(d.nodes[i].leading, files);
                lemma_fresh_args_stable(d.nodes[i].leading, files, flag);
                assert(m.nodes == d.nodes.update(i, fresh));
                assert forall|j: int|
                    0 <= j < m.nodes.len() implies walk_node(#[trigger] m.nodes[j], flag) == (
                    m.nodes[j],
                    Seq::<ChangeV>::empty(),
                ) by {
                    if j != i {
                        assert(m.nodes[j] == d.nodes[j]);
                    } else {
                        assert(m.nodes[j] == fresh);
                    }
                }
                lemma_nodes_stable_of_all(m.nodes, flag);
                assert(walk_doc(m, flag).0 =~~= m);
            } else if d.nodes.len() > 0 {
                let fresh = fresh_args_node(d.nodes[0].leading, files);
                lemma_fresh_args_stable(d.nodes[0].leading, files, flag);
                let adjusted = strip_blank_line(d.nodes[0]);
                lemma_stable_same_but_leading(d.nodes[0], adjusted, flag);
                assert(m.nodes == seq![fresh] + d.nodes.update(0, adjusted));
                assert forall|j: int|
                    0 <= j < m.nodes.len() implies walk_node(#[trigger] m.nodes[j], flag) == (
                    m.nodes[j],
                    Seq::<ChangeV>::empty(),
                ) by {
                    if j == 0 {
                        assert(m.nodes[j] == fresh);
                    } else if j == 1 {
                        assert(m.nodes[j] == adjusted);
                    } else {
                        assert(m.nodes[j] == d.nodes[j - 1]);
                    }
                }
                lemma_nodes_stable_of_all(m.nodes, flag);
                assert(walk_doc(m, flag).0 =~~= m);
            } else {
                lemma_fresh_args_stable(seq![' '], files, flag);
                lemma_nodes_stable_of_all(m.nodes, flag);
                assert(walk_doc(m, flag).0 =~~= m);
            }
        },
    }
}

/// Removing the args child of a node with walked children leaves children
/// that a second walk passes over.
proof fn lemma_remove_args_children_stable(x: NodeV, flag: bool)
    requires
        match x.children {
            None => true,
            Some(d) => walk_doc(d, flag) == (d, Seq::<ChangeV>::empty()),
        },
    ensures
        match remove_args_child(x).children {
            None => true,
            Some(m) => walk_doc(m, flag) == (m, Seq::<ChangeV>::empty()),
        },
{
    match x.children {
        None => {},
        Some(d) => {
            let i = args_child_index(d.nodes);
            if i >= 0 {
                let m = remove_args_child(x).children->Some_0;
                let w = walk_nodes(d.nodes, flag);
                assert(walk_doc(d, flag).0 == DocV { nodes: w.0, trailing: d.trailing });
                assert(w.0 == d.nodes && w.1 == Seq::<ChangeV>::empty());
                lemma_stable_elementwise(d.nodes, flag);
                lemma_args_index_facts(d.nodes);
                assert(m.nodes == d.nodes.remove(i));
                assert forall|j: int|
                    0 <= j < m.nodes.len() implies walk_node(#[trigger] m.nodes[j], flag) == (
                    m.nodes[j],
                    Seq::<ChangeV>::empty(),
                ) by {
                    if j < i {
                        assert(m.nodes[j] == d.nodes[j]);
                    } else {
                        assert(m.nodes[j] == d.nodes[j + 1]);
                    }
                }
                lemma_nodes_stable_of_all(m.nodes, flag);
                assert(walk_doc(m, flag).0 =~~= m);
            }
        },
    }
}

// ---------------------------------------------------------------------------
// Idempotence
// ---------------------------------------------------------------------------

#[verifier::rlimit(100)]
proof fn lemma_walk_node_stable(n: NodeV, flag: bool)
    requires
        unique_args_node(n),
    ensures
        ({
            let n1 = walk_node(n, flag).0;
            walk_node(n1, flag) == (n1, Seq::<ChangeV>::empty())
        }),
    decreases n, 2int,
{
    if n.name == pane_chars() {
        let kids = walk_children(n, flag);
        let own = pane_step(kids.0, flag);
        let n1 = own.0;
        assert(kids.0.name == n.name);
        lemma_pane_step_keeps_name(kids.0, flag);
        assert(n1.name == pane_chars());
        // the walked children are stable
        match n.children {
            None => {
                assert(kids == (n, Seq::<ChangeV>::empty()));
            },
            Some(ch) => {
                lemma_walk_doc_stable(ch, flag);
            },
        }
        let kids_stable = match kids.0.children {
            None => true,
            Some(d1) => walk_doc(d1, flag) == (d1, Seq::<ChangeV>::empty()),
        };
        assert(kids_stable) by {
            match n.children {
                None => {},
                Some(ch) => {
                    assert(kids.0.children == Some(walk_doc(ch, flag).0));
                },
            }
        }
        // at most one args child survives the walk of the children
        assert(match kids.0.children {
            None => true,
            Some(d1) => at_most_one_args(d1.nodes),
        }) by {
            match n.children {
                None => {},
                Some(ch) => {
                    let d1 = walk_doc(ch, flag).0;
                    assert(kids.0.children == Some(d1));
                    assert(d1.nodes == walk_nodes(ch.nodes, flag).0);
                    lemma_walk_nodes_index(ch.nodes, flag);
                    assert forall|p: int, q: int|
                        0 <= p < q < d1.nodes.len() && (#[trigger] d1.nodes[p]).name
                        == args_chars() implies (#[trigger] d1.nodes[q]).name != args_chars() by {
                        lemma_walk_node_keeps_name(ch.nodes[p], flag);
                        lemma_walk_node_keeps_name(ch.nodes[q], flag);
                        assert(at_most_one_args(ch.nodes));
                        assert(ch.nodes[p].name == args_chars());
                    }
                },
            }
        }
        // case on the branch the pane rewrite took
        match command_of(kids.0) {
            None => {
                assert(n1 == kids.0);
                lemma_pane_stable_unmutated(n, kids.0, flag);
            },
            Some(cmd) => {
                if flag {
                    if cmd == direnv_chars() {
                        assert(n1 == kids.0);
                        lemma_pane_stable_unmutated(n, kids.0, flag);
                    } else {
                        lemma_pane_direnv_mutated_stable(kids.0, flag);
                    }
                } else if contains_seq(cmd, nvim_chars()) {
                    let args = pane_args(kids.0);
                    let f = full_command(cmd, args);
                    let simp = simplify_command(f);
                    if simp == f {
                        assert(n1 == kids.0);
                        lemma_pane_stable_unmutated(n, kids.0, flag);
                    } else {
                        lemma_pane_nvim_mutated_stable(kids.0, flag);
                    }
                } else {
                    assert(n1 == kids.0);
                    lemma_pane_stable_unmutated(n, kids.0, flag);
                }
            },
        }
    } else {
        let f = if n.name == tab_chars() {
            is_direnv_tab(n)
        } else {
            flag
        };
        assert(walk_node(n, flag) == walk_children(n, f));
        let n1 = walk_children(n, f).0;
        assert(n1.name == n.name && n1.entries == n.entries);
        assert(is_direnv_tab(n1) == is_direnv_tab(n));
        match n.children {
            None => {
                assert(n1 == n);
            },
            Some(ch) => {
                lemma_walk_doc_stable(ch, f);
                let d1 = walk_doc(ch, f).0;
                assert(n1.children == Some(d1));
                assert(walk_doc(d1, f) == (d1, Seq::<ChangeV>::empty()));
                assert(NodeV { children: Some(d1), ..n1 } =~~= n1);
            },
        }
    }
}

/// The second walk of a pane the first walk wrapped in the launcher: the
/// `direnv` command guards it.
proof fn lemma_pane_direnv_mutated_stable(nw: NodeV, flag: bool)
    requires
        flag,
        nw.name == pane_chars(),
        command_of(nw) is Some,
        command_of(nw)->Some_0 != direnv_chars(),
        match nw.children {
            None => true,
            Some(d1) => walk_doc(d1, flag) == (d1, Seq::<ChangeV>::empty()),
        },
    ensures
        ({
            let n1 = pane_step(nw, flag).0;
            walk_node(n1, flag) == (n1, Seq::<ChangeV>::empty())
        }),
{
    let cmd = command_of(nw)->Some_0;
    let newargs = crate::kdl::direnv_args(cmd, pane_args(nw));
    assert(newargs.len() >= 3);
    let n1 = pane_step(nw, flag).0;
    assert(n1 == set_args_child(set_command_value(nw, direnv_chars()), newargs));
    lemma_set_command_reads(nw, direnv_chars());
    let mid = set_command_value(nw, direnv_chars());
    lemma_set_args_reads(mid, newargs);
    assert(command_of(n1) == command_of(mid)) by {
        assert(n1.entries == mid.entries);
    }
    assert(command_of(n1) == Some(direnv_chars()));
    lemma_set_args_children_stable(mid, newargs, flag);
    assert(n1.name == pane_chars());
    assert(walk_children(n1, flag) == (n1, Seq::<ChangeV>::empty())) by {
        let m = n1.children->Some_0;
        assert(NodeV { children: Some(m), ..n1 } =~~= n1);
    }
    assert(pane_step(n1, flag) == (n1, Seq::<ChangeV>::empty()));
    assert(pane_step(n1, flag).1 + Seq::<ChangeV>::empty() =~~= Seq::<ChangeV>::empty());
}

/// A pane whose command is already `nvim` and whose rebuilt full command is
/// its own simplification is left alone.
#[verifier::rlimit(50)]
proof fn lemma_pane_step_noop_nvim(n1: NodeV, flag: bool)
    requires
        !flag,
        command_of(n1) == Some(nvim_chars()),
        simplify_command(full_command(nvim_chars(), pane_args(n1))) == full_command(
            nvim_chars(),
            pane_args(n1),
        ),
    ensures
        pane_step(n1, flag) == (n1, Seq::<ChangeV>::empty()),
{
    assert(contains_seq(nvim_chars(), nvim_chars())) by {
        assert(nvim_chars().subrange(0, 4) =~= nvim_chars());
        assert(occurs_at(nvim_chars(), nvim_chars(), 0));
    }
}

/// A pane that neither the children walk nor the pane rewrite touches is
/// stable as a whole.
proof fn lemma_walk_node_of_stable_pane(n1: NodeV, flag: bool)
    requires
        n1.name == pane_chars(),
        walk_children(n1, flag) == (n1, Seq::<ChangeV>::empty()),
        pane_step(n1, flag) == (n1, Seq::<ChangeV>::empty()),
    ensures
        walk_node(n1, flag) == (n1, Seq::<ChangeV>::empty()),
{
    assert(pane_step(n1, flag).1 + Seq::<ChangeV>::empty() =~~= Seq::<ChangeV>::empty());
}

/// The second walk of a pane the first walk simplified to `nvim <files...>`:
/// simplifying again changes nothing.
#[verifier::rlimit(100)]
proof fn lemma_pane_nvim_mutated_stable(nw: NodeV, flag: bool)
    requires
        !flag,
        nw.name == pane_chars(),
        command_of(nw) is Some,
        contains_seq(command_of(nw)->Some_0, nvim_chars()),
        simplify_command(full_command(command_of(nw)->Some_0, pane_args(nw))) != full_command(
            command_of(nw)->Some_0,
            pane_args(nw),
        ),
        match nw.children {
            None => true,
            Some(d1) => walk_doc(d1, flag) == (d1, Seq::<ChangeV>::empty())
                && at_most_one_args(d1.nodes),
        },
    ensures
        ({
            let n1 = pane_step(nw, flag).0;
            walk_node(n1, flag) == (n1, Seq::<ChangeV>::empty())
        }),
{
    let cmd = command_of(nw)->Some_0;
    let args = pane_args(nw);
    let f = full_command(cmd, args);
    let simp = simplify_command(f);
    let files = file_args_of(simp);
    let n1 = pane_step(nw, flag).0;
    lemma_set_command_reads(nw, nvim_chars());
    let mid = set_command_value(nw, nvim_chars());
    lemma_simplified_full_stable(f);
    if files.len() > 0 {
        assert(n1 == set_args_child(mid, files));
        lemma_nvim_rebuilt_set_stable(mid, files, flag);
    } else {
        assert(n1 == remove_args_child(mid));
        lemma_nvim_rebuilt_remove_stable(mid, files, flag);
    }
}

/// The rewritten pane with a fresh args child simplifies to itself.
proof fn lemma_nvim_rebuilt_set_stable(mid: NodeV, files: Seq<Seq<char>>, flag: bool)
    requires
        !flag,
        mid.name == pane_chars(),
        command_of(mid) == Some(nvim_chars()),
        files.len() > 0,
        simplify_command(full_command(nvim_chars(), files)) == full_command(nvim_chars(), files),
        match mid.children {
            None => true,
            Some(d1) => walk_doc(d1, flag) == (d1, Seq::<ChangeV>::empty()),
        },
    ensures
        ({
            let n1 = set_args_child(mid, files);
            walk_node(n1, flag) == (n1, Seq::<ChangeV>::empty())
        }),
{
    let n1 = set_args_child(mid, files);
    lemma_set_args_reads(mid, files);
    assert(command_of(n1) == Some(nvim_chars())) by {
        assert(n1.entries == mid.entries);
    }
    assert(pane_args(n1) == files);
    lemma_set_args_children_stable(mid, files, flag);
    assert(n1.name == pane_chars());
    assert(walk_children(n1, flag) == (n1, Seq::<ChangeV>::empty())) by {
        let m = n1.children->Some_0;
        assert(NodeV { children: Some(m), ..n1 } =~~= n1);
    }
    lemma_pane_step_noop_nvim(n1, flag);
    lemma_walk_node_of_stable_pane(n1, flag);
}

/// The rewritten pane with its args child removed simplifies to itself.
proof fn lemma_nvim_rebuilt_remove_stable(mid: NodeV, files: Seq<Seq<char>>, flag: bool)
    requires
        !flag,
        mid.name == pane_chars(),
        command_of(mid) == Some(nvim_chars()),
        files.len() == 0,
        simplify_command(full_command(nvim_chars(), files)) == full_command(nvim_chars(), files),
        match mid.children {
            None => true,
            Some(d1) => walk_doc(d1, flag) == (d1, Seq::<ChangeV>::empty())
                && at_most_one_args(d1.nodes),
        },
    ensures
        ({
            let n1 = remove_args_child(mid);
            walk_node(n1, flag) == (n1, Seq::<ChangeV>::empty())
        }),
{
    let n1 = remove_args_child(mid);
    lemma_remove_args_reads(mid);
    assert(command_of(n1) == Some(nvim_chars())) by {
        assert(n1.entries == mid.entries);
    }
    assert(pane_args(n1) == Seq::<Seq<char>>::empty());
    lemma_remove_args_children_stable(mid, flag);
    assert(n1.name == pane_chars());
    assert(walk_children(n1, flag) == (n1, Seq::<ChangeV>::empty())) by {
        match n1.children {
            None => {},
            Some(m) => {
                assert(NodeV { children: Some(m), ..n1 } =~~= n1);
            },
        }
    }
    assert(full_command(nvim_chars(), pane_args(n1)) == full_command(nvim_chars(), files));
    lemma_pane_step_noop_nvim(n1, flag);
    lemma_walk_node_of_stable_pane(n1, flag);
}

/// The second walk of a pane that the first walk did not rewrite.
proof fn lemma_pane_stable_unmutated(n: NodeV, nw: NodeV, flag: bool)
    requires
        n.name == pane_chars(),
        nw == walk_children(n, flag).0,
        pane_step(nw, flag) == (nw, Seq::<ChangeV>::empty()),
        match nw.children {
            None => true,
            Some(d1) => walk_doc(d1, flag) == (d1, Seq::<ChangeV>::empty()),
        },
    ensures
        walk_node(nw, flag) == (nw, Seq::<ChangeV>::empty()),
{
    assert(nw.name == pane_chars());
    assert(walk_children(nw, flag) == (nw, Seq::<ChangeV>::empty())) by {
        match nw.children {
            None => {},
            Some(d1) => {
                assert(NodeV { children: Some(d1), ..nw } =~~= nw);
            },
        }
    }
    assert(pane_step(nw, flag).1 + Seq::<ChangeV>::empty() =~~= Seq::<ChangeV>::empty());
}

proof fn lemma_walk_nodes_stable(ns: Seq<NodeV>, flag: bool)
    requires
        unique_args_nodes(ns),
    ensures
        ({
            let ns1 = walk_nodes(ns, flag).0;
            walk_nodes(ns1, flag) == (ns1, Seq::<ChangeV>::empty())
        }),
    decreases ns, 3int,
{
    if ns.len() == 0 {
        assert(walk_nodes(ns, flag).0 =~~= Seq::<NodeV>::empty());
        let ns1 = walk_nodes(ns, flag).0;
        assert(walk_nodes(ns1, flag).0 =~~= ns1);
        assert(walk_nodes(ns1, flag) == (ns1, Seq::<ChangeV>::empty()));
    } else {
        lemma_walk_node_stable(ns[0], flag);
        lemma_walk_nodes_stable(ns.drop_first(), flag);
        let h0 = walk_node(ns[0], flag).0;
        let t0 = walk_nodes(ns.drop_first(), flag).0;
        let ns1 = walk_nodes(ns, flag).0;
        assert(ns1 == seq![h0] + t0);
        assert(ns1[0] == h0);
        assert(ns1.drop_first() =~~= t0);
        assert(walk_node(ns1[0], flag) == (h0, Seq::<ChangeV>::empty()));
        assert(walk_nodes(ns1.drop_first(), flag) == (t0, Seq::<ChangeV>::empty()));
        assert(walk_nodes(ns1, flag).0 == seq![h0] + t0);
        assert(walk_nodes(ns1, flag).1 =~~= Seq::<ChangeV>::empty());
        assert(walk_nodes(ns1, flag) == (ns1, Seq::<ChangeV>::empty()));
    }
}

proof fn lemma_walk_doc_stable(d: DocV, flag: bool)
    requires
        unique_args_nodes(d.nodes),
    ensures
        ({
            let d1 = walk_doc(d, flag).0;
            walk_doc(d1, flag) == (d1, Seq::<ChangeV>::empty())
        }),
    decreases d, 4int,
{
    lemma_walk_nodes_stable(d.nodes, flag);
    let d1 = walk_doc(d, flag).0;
    assert(d1.nodes == walk_nodes(d.nodes, flag).0);
    assert(walk_doc(d1, flag).0 =~~= d1);
    assert(walk_doc(d1, flag) == (d1, Seq::<ChangeV>::empty()));
}

/// Idempotence: walking the walk's own output yields that output unchanged
/// and records no change — for any document in which no node carries two
/// `args` children (with duplicates, which the format does not specify,
/// removing the first can expose the second).
pub proof fn lemma_transform_idempotent(d: DocV)
    requires
        unique_args_doc(d),
    ensures
        ({
            let once = walk_doc(d, false);
            walk_doc(once.0, false) == (once.0, Seq::<ChangeV>::empty())
        }),
{
    lemma_walk_doc_stable(d, false);
}

// ---------------------------------------------------------------------------
// Direnv propagation scope
// ---------------------------------------------------------------------------

/// No tab anywhere in the subtree carries the `dr ` marker.
pub open spec fn dr_tab_free_node(n: NodeV) -> bool
    decreases n, 1int,
{
    &&& !(n.name == tab_chars() && is_direnv_tab(n))
    &&& match n.children {
        None => true,
        Some(d) => dr_tab_free_nodes(d.nodes),
    }
}

pub open spec fn dr_tab_free_nodes(ns: Seq<NodeV>) -> bool
    decreases ns, 2int,
{
    if ns.len() == 0 {
        true
    } else {
        dr_tab_free_node(ns[0]) && dr_tab_free_nodes(ns.drop_first())
    }
}

pub open spec fn dr_tab_free_doc(d: DocV) -> bool {
    dr_tab_free_nodes(d.nodes)
}

/// No node anywhere in the subtree has `direnv` as its command.
pub open spec fn no_direnv_command_node(n: NodeV) -> bool
    decreases n, 1int,
{
    &&& command_of(n) != Some(direnv_chars())
    &&& match n.children {
        None => true,
        Some(d) => no_direnv_command_nodes(d.nodes),
    }
}

pub open spec fn no_direnv_command_nodes(ns: Seq<NodeV>) -> bool
    decreases ns, 2int,
{
    if ns.len() == 0 {
        true
    } else {
        no_direnv_command_node(ns[0]) && no_direnv_command_nodes(ns.drop_first())
    }
}

pub open spec fn no_direnv_command_doc(d: DocV) -> bool {
    no_direnv_command_nodes(d.nodes)
}

/// No tab node at all in the subtree.
pub open spec fn tab_free_node(n: NodeV) -> bool
    decreases n, 1int,
{
    &&& n.name != tab_chars()
    &&& match n.children {
        None => true,
        Some(d) => tab_free_nodes(d.nodes),
    }
}

pub open spec fn tab_free_nodes(ns: Seq<NodeV>) -> bool
    decreases ns, 2int,
{
    if ns.len() == 0 {
        true
    } else {
        tab_free_node(ns[0]) && tab_free_nodes(ns.drop_first())
    }
}

pub open spec fn tab_free_doc(d: DocV) -> bool {
    tab_free_nodes(d.nodes)
}

/// Every pane in the subtree that carries a command runs the launcher.
pub open spec fn panes_wrapped_node(n: NodeV) -> bool
    decreases n, 1int,
{
    &&& (n.name == pane_chars() && command_of(n) is Some ==> command_of(n) == Some(
        direnv_chars(),
    ))
    &&& match n.children {
        None => true,
        Some(d) => panes_wrapped_nodes(d.nodes),
    }
}

pub open spec fn panes_wrapped_nodes(ns: Seq<NodeV>) -> bool
    decreases ns, 2int,
{
    if ns.len() == 0 {
        true
    } else {
        panes_wrapped_node(ns[0]) && panes_wrapped_nodes(ns.drop_first())
    }
}

pub open spec fn panes_wrapped_doc(d: DocV) -> bool {
    panes_wrapped_nodes(d.nodes)
}

proof fn lemma_no_direnv_nodes_index(ns: Seq<NodeV>)
    requires
        no_direnv_command_nodes(ns),
    ensures
        forall|i: int| 0 <= i < ns.len() ==> no_direnv_command_node(#[trigger] ns[i]),
    decreases ns.len(),
{
    if ns.len() > 0 {
        lemma_no_direnv_nodes_index(ns.drop_first());
        assert forall|i: int|
            0 <= i < ns.len() implies no_direnv_command_node(#[trigger] ns[i]) by {
            if i > 0 {
                assert(ns.drop_first()[i - 1] == ns[i]);
                assert(no_direnv_command_node(ns.drop_first()[i - 1]));
            }
        }
    }
}

proof fn lemma_no_direnv_nodes_of_all(ns: Seq<NodeV>)
    requires
        forall|i: int| 0 <= i < ns.len() ==> no_direnv_command_node(#[trigger] ns[i]),
    ensures
        no_direnv_command_nodes(ns),
    decreases ns.len(),
{
    if ns.len() > 0 {
        assert(forall|j: int|
            0 <= j < ns.drop_first().len() ==> #[trigger] ns.drop_first()[j] == ns[j + 1]);
        lemma_no_direnv_nodes_of_all(ns.drop_first());
    }
}

proof fn lemma_dr_free_nodes_index(ns: Seq<NodeV>)
    requires
        dr_tab_free_nodes(ns),
    ensures
        forall|i: int| 0 <= i < ns.len() ==> dr_tab_free_node(#[trigger] ns[i]),
    decreases ns.len(),
{
    if ns.len() > 0 {
        lemma_dr_free_nodes_index(ns.drop_first());
        assert forall|i: int| 0 <= i < ns.len() implies dr_tab_free_node(#[trigger] ns[i]) by {
            if i > 0 {
                assert(ns.drop_first()[i - 1] == ns[i]);
                assert(dr_tab_free_node(ns.drop_first()[i - 1]));
            }
        }
    }
}

proof fn lemma_wrapped_nodes_index(ns: Seq<NodeV>)
    requires
        panes_wrapped_nodes(ns),
    ensures
        forall|i: int| 0 <= i < ns.len() ==> panes_wrapped_node(#[trigger] ns[i]),
    decreases ns.len(),
{
    if ns.len() > 0 {
        lemma_wrapped_nodes_index(ns.drop_first());
        assert forall|i: int| 0 <= i < ns.len() implies panes_wrapped_node(#[trigger] ns[i]) by {
            if i > 0 {
                assert(ns.drop_first()[i - 1] == ns[i]);
                assert(panes_wrapped_node(ns.drop_first()[i - 1]));
            }
        }
    }
}

proof fn lemma_wrapped_nodes_of_all(ns: Seq<NodeV>)
    requires
        forall|i: int| 0 <= i < ns.len() ==> panes_wrapped_node(#[trigger] ns[i]),
    ensures
        panes_wrapped_nodes(ns),
    decreases ns.len(),
{
    if ns.len() > 0 {
        assert(forall|j: int|
            0 <= j < ns.drop_first().len() ==> #[trigger] ns.drop_first()[j] == ns[j + 1]);
        lemma_wrapped_nodes_of_all(ns.drop_first());
    }
}

proof fn lemma_tab_free_nodes_index(ns: Seq<NodeV>)
    requires
        tab_free_nodes(ns),
    ensures
        forall|i: int| 0 <= i < ns.len() ==> tab_free_node(#[trigger] ns[i]),
    decreases ns.len(),
{
    if ns.len() > 0 {
        lemma_tab_free_nodes_index(ns.drop_first());
        assert forall|i: int| 0 <= i < ns.len() implies tab_free_node(#[trigger] ns[i]) by {
            if i > 0 {
                assert(ns.drop_first()[i - 1] == ns[i]);
                assert(tab_free_node(ns.drop_first()[i - 1]));
            }
        }
    }
}

/// A fresh args node carries no command at all.
proof fn lemma_fresh_args_no_command(l: Seq<char>, files: Seq<Seq<char>>)
    ensures
        command_of(fresh_args_node(l, files)) is None,
        fresh_args_node(l, files).name == args_chars(),
        no_direnv_command_node(fresh_args_node(l, files)),
{
    let es = str_args_entries(files);
    lemma_named_index_facts(es, command_chars());
    let r = named_entry_index(es, command_chars());
    if r >= 0 {
        assert(es[r].name == Some(command_chars()));
        assert(es[r].name is None);
    }
}

/// The mutated children of a rewritten pane hold no launcher command if the
/// children it was rewritten from held none.
proof fn lemma_set_args_no_direnv(x: NodeV, files: Seq<Seq<char>>)
    requires
        match x.children {
            None => true,
            Some(d) => no_direnv_command_nodes(d.nodes),
        },
    ensures
        ({
            let m = set_args_child(x, files).children->Some_0;
            no_direnv_command_nodes(m.nodes)
        }),
{
    let m = set_args_child(x, files).children->Some_0;
    lemma_fresh_args_no_command(seq![' '], files);
    match x.children {
        None => {
            lemma_no_direnv_nodes_of_all(m.nodes);
        },
        Some(d) => {
            lemma_no_direnv_nodes_index(d.nodes);
            let i = args_child_index(d.nodes);
            lemma_args_index_facts(d.nodes);
            if i >= 0 {
                let fresh = fresh_args_node(d.nodes[i].leading, files);
                lemma_fresh_args_no_command(d.nodes[i].leading, files);
                assert(m.nodes == d.nodes.update(i, fresh));
                assert forall|j: int|
                    0 <= j < m.nodes.len() implies no_direnv_command_node(
                    #[trigger] m.nodes[j],
                ) by {
                    if j != i {
                        assert(m.nodes[j] == d.nodes[j]);
                    } else {
                        assert(m.nodes[j] == fresh);
                    }
                }
                lemma_no_direnv_nodes_of_all(m.nodes);
            } else if d.nodes.len() > 0 {
                let fresh = fresh_args_node(d.nodes[0].leading, files);
                lemma_fresh_args_no_command(d.nodes[0].leading, files);
                assert(m.nodes == seq![fresh] + d.nodes.update(0, strip_blank_line(d.nodes[0])));
                assert forall|j: int|
                    0 <= j < m.nodes.len() implies no_direnv_command_node(
                    #[trigger] m.nodes[j],
                ) by {
                    if j == 0 {
                        assert(m.nodes[j] == fresh);
                    } else if j == 1 {
                        assert(m.nodes[j] == strip_blank_line(d.nodes[0]));
                        assert(no_direnv_command_node(d.nodes[0]));
                        assert(command_of(strip_blank_line(d.nodes[0])) == command_of(
                            d.nodes[0],
                        ));
                    } else {
                        assert(m.nodes[j] == d.nodes[j - 1]);
                    }
                }
                lemma_no_direnv_nodes_of_all(m.nodes);
            } else {
                assert(m.nodes == seq![fresh_args_node(seq![' '], files)]);
                lemma_no_direnv_nodes_of_all(m.nodes);
            }
        },
    }
}

proof fn lemma_remove_args_no_direnv(x: NodeV)
    requires
        match x.children {
            None => true,
            Some(d) => no_direnv_command_nodes(d.nodes),
        },
    ensures
        match remove_args_child(x).children {
            None => true,
            Some(m) => no_direnv_command_nodes(m.nodes),
        },
{
    match x.children {
        None => {},
        Some(d) => {
            let i = args_child_index(d.nodes);
            if i >= 0 {
                let m = remove_args_child(x).children->Some_0;
                lemma_no_direnv_nodes_index(d.nodes);
                lemma_args_index_facts(d.nodes);
                d.nodes.remove_ensures(i);
                assert(m.nodes == d.nodes.remove(i));
                assert forall|j: int|
                    0 <= j < m.nodes.len() implies no_direnv_command_node(
                    #[trigger] m.nodes[j],
                ) by {
                    if j < i {
                        assert(m.nodes[j] == d.nodes[j]);
                    } else {
                        assert(m.nodes[j] == d.nodes[j + 1]);
                    }
                }
                lemma_no_direnv_nodes_of_all(m.nodes);
            }
        },
    }
}

proof fn lemma_scope_negative_node(n: NodeV, flag: bool)
    requires
        !flag,
        dr_tab_free_node(n),
        no_direnv_command_node(n),
    ensures
        no_direnv_command_node(walk_node(n, flag).0),
    decreases n, 2int,
{
    if n.name == tab_chars() {
        assert(!is_direnv_tab(n));
        lemma_scope_negative_children(n, false);
    } else if n.name == pane_chars() {
        lemma_scope_negative_children(n, flag);
        let kids = walk_children(n, flag);
        assert(kids.0.entries == n.entries);
        assert(command_of(kids.0) == command_of(n));
        let own = pane_step(kids.0, flag);
        match command_of(kids.0) {
            None => {},
            Some(cmd) => {
                if contains_seq(cmd, nvim_chars()) {
                    let args = pane_args(kids.0);
                    let f = full_command(cmd, args);
                    if simplify_command(f) != f {
                        let files = file_args_of(simplify_command(f));
                        lemma_set_command_reads(kids.0, nvim_chars());
                        let mid = set_command_value(kids.0, nvim_chars());
                        assert(command_of(mid) == Some(nvim_chars()));
                        assert(Some(nvim_chars()) != Some(direnv_chars())) by {
                            assert(nvim_chars().len() != direnv_chars().len());
                        }
                        assert(mid.children == kids.0.children);
                        if files.len() > 0 {
                            lemma_set_args_reads(mid, files);
                            assert(own.0 == set_args_child(mid, files));
                            assert(command_of(own.0) == command_of(mid)) by {
                                assert(own.0.entries == mid.entries);
                            }
                            lemma_set_args_no_direnv(mid, files);
                        } else {
                            assert(own.0 == remove_args_child(mid));
                            assert(own.0.entries == mid.entries);
                            assert(command_of(own.0) == command_of(mid));
                            lemma_remove_args_no_direnv(mid);
                        }
                    }
                }
            },
        }
    } else {
        lemma_scope_negative_children(n, flag);
    }
}

proof fn lemma_scope_negative_children(n: NodeV, flag: bool)
    requires
        !flag,
        dr_tab_free_node(n),
        no_direnv_command_node(n),
    ensures
        no_direnv_command_node(walk_children(n, flag).0),
        walk_children(n, flag).0.entries == n.entries,
    decreases n, 1int,
{
    match n.children {
        None => {},
        Some(d) => {
            lemma_scope_negative_nodes(d.nodes, flag);
        },
    }
}

proof fn lemma_scope_negative_nodes(ns: Seq<NodeV>, flag: bool)
    requires
        !flag,
        dr_tab_free_nodes(ns),
        no_direnv_command_nodes(ns),
    ensures
        no_direnv_command_nodes(walk_nodes(ns, flag).0),
    decreases ns, 3int,
{
    if ns.len() > 0 {
        lemma_scope_negative_node(ns[0], flag);
        lemma_scope_negative_nodes(ns.drop_first(), flag);
        let h = walk_node(ns[0], flag);
        let t = walk_nodes(ns.drop_first(), flag);
        assert(walk_nodes(ns, flag).0 == seq![h.0] + t.0);
        assert((seq![h.0] + t.0)[0] == h.0);
        assert((seq![h.0] + t.0).drop_first() =~~= t.0);
    }
}

/// Direnv propagation scope, the negative half: in a document with no
/// `dr `-marked tab anywhere and no pane already running the launcher, the
/// walk wraps nothing — no node of the output runs `direnv`.
pub proof fn lemma_direnv_scope_negative(d: DocV)
    requires
        dr_tab_free_doc(d),
        no_direnv_command_doc(d),
    ensures
        no_direnv_command_doc(walk_doc(d, false).0),
{
    lemma_scope_negative_nodes(d.nodes, false);
}

proof fn lemma_scope_positive_node(n: NodeV)
    requires
        tab_free_node(n),
    ensures
        panes_wrapped_node(walk_node(n, true).0),
    decreases n, 2int,
{
    assert(n.name != tab_chars());
    lemma_scope_positive_children(n);
    let kids = walk_children(n, true);
    if n.name == pane_chars() {
        assert(kids.0.entries == n.entries && kids.0.name == n.name);
        let own = pane_step(kids.0, true);
        match command_of(kids.0) {
            None => {
                assert(command_of(own.0) is None);
            },
            Some(cmd) => {
                if cmd == direnv_chars() {
                } else {
                    let newargs = crate::kdl::direnv_args(cmd, pane_args(kids.0));
                    lemma_set_command_reads(kids.0, direnv_chars());
                    let mid = set_command_value(kids.0, direnv_chars());
                    assert(own.0 == set_args_child(mid, newargs));
                    lemma_set_args_reads(mid, newargs);
                    assert(command_of(own.0) == command_of(mid)) by {
                        assert(own.0.entries == mid.entries);
                    }
                    assert(command_of(own.0) == Some(direnv_chars()));
                    lemma_set_args_wrapped(mid, newargs);
                }
            },
        }
    }
}

/// A fresh args node is not a pane.
proof fn lemma_fresh_args_not_pane(l: Seq<char>, files: Seq<Seq<char>>)
    ensures
        panes_wrapped_node(fresh_args_node(l, files)),
{
    assert(fresh_args_node(l, files).name != pane_chars()) by {
        assert(args_chars()[0] != pane_chars()[0]);
    }
}

proof fn lemma_set_args_wrapped(x: NodeV, files: Seq<Seq<char>>)
    requires
        match x.children {
            None => true,
            Some(d) => panes_wrapped_nodes(d.nodes),
        },
    ensures
        ({
            let m = set_args_child(x, files).children->Some_0;
            panes_wrapped_nodes(m.nodes)
        }),
{
    let m = set_args_child(x, files).children->Some_0;
    lemma_fresh_args_not_pane(seq![' '], files);
    match x.children {
        None => {
            lemma_wrapped_nodes_of_all(m.nodes);
        },
        Some(d) => {
            lemma_wrapped_nodes_index(d.nodes);
            let i = args_child_index(d.nodes);
            lemma_args_index_facts(d.nodes);
            if i >= 0 {
                let fresh = fresh_args_node(d.nodes[i].leading, files);
                lemma_fresh_args_not_pane(d.nodes[i].leading, files);
                assert(m.nodes == d.nodes.update(i, fresh));
                assert forall|j: int|
                    0 <= j < m.nodes.len() implies panes_wrapped_node(#[trigger] m.nodes[j]) by {
                    if j != i {
                        assert(m.nodes[j] == d.nodes[j]);
                    } else {
                        assert(m.nodes[j] == fresh);
                    }
                }
                lemma_wrapped_nodes_of_all(m.nodes);
            } else if d.nodes.len() > 0 {
                let fresh = fresh_args_node(d.nodes[0].leading, files);
                lemma_fresh_args_not_pane(d.nodes[0].leading, files);
                assert(m.nodes == seq![fresh] + d.nodes.update(0, strip_blank_line(d.nodes[0])));
                assert forall|j: int|
                    0 <= j < m.nodes.len() implies panes_wrapped_node(#[trigger] m.nodes[j]) by {
                    if j == 0 {
                        assert(m.nodes[j] == fresh);
                    } else if j == 1 {
                        assert(m.nodes[j] == strip_blank_line(d.nodes[0]));
                        assert(panes_wrapped_node(d.nodes[0]));
                        assert(command_of(strip_blank_line(d.nodes[0])) == command_of(
                            d.nodes[0],
                        ));
                    } else {
                        assert(m.nodes[j] == d.nodes[j - 1]);
                    }
                }
                lemma_wrapped_nodes_of_all(m.nodes);
            } else {
                assert(m.nodes == seq![fresh_args_node(seq![' '], files)]);
                lemma_wrapped_nodes_of_all(m.nodes);
            }
        },
    }
}

proof fn lemma_scope_positive_children(n: NodeV)
    requires
        tab_free_node(n),
    ensures
        ({
            let nw = walk_children(n, true).0;
            &&& nw.entries == n.entries
            &&& nw.name == n.name
            &&& match nw.children {
                None => true,
                Some(d1) => panes_wrapped_nodes(d1.nodes),
            }
        }),
    decreases n, 1int,
{
    match n.children {
        None => {},
        Some(d) => {
            lemma_scope_positive_nodes(d.nodes);
        },
    }
}

proof fn lemma_scope_positive_nodes(ns: Seq<NodeV>)
    requires
        tab_free_nodes(ns),
    ensures
        panes_wrapped_nodes(walk_nodes(ns, true).0),
    decreases ns, 3int,
{
    if ns.len() > 0 {
        lemma_scope_positive_node(ns[0]);
        lemma_scope_positive_nodes(ns.drop_first());
        let h = walk_node(ns[0], true);
        let t = walk_nodes(ns.drop_first(), true);
        assert(walk_nodes(ns, true).0 == seq![h.0] + t.0);
        assert((seq![h.0] + t.0)[0] == h.0);
        assert((seq![h.0] + t.0).drop_first() =~~= t.0);
    }
}

/// Direnv propagation scope, per tab: in a mixed document, a tab without the
/// `dr ` marker never has its subtree wrapped, whatever the sibling tabs
/// carry — no node under it comes out of the walk running the launcher
/// (unless one already did).
pub proof fn lemma_plain_tab_not_wrapped(t: NodeV, flag: bool)
    requires
        t.name == tab_chars(),
        !is_direnv_tab(t),
        match t.children {
            None => true,
            Some(d) => dr_tab_free_nodes(d.nodes) && no_direnv_command_nodes(d.nodes),
        },
    ensures
        match walk_node(t, flag).0.children {
            None => true,
            Some(d1) => no_direnv_command_nodes(d1.nodes),
        },
{
    match t.children {
        None => {},
        Some(d) => {
            lemma_scope_negative_nodes(d.nodes, false);
            assert(walk_node(t, flag) == walk_children(t, false));
        },
    }
}

/// The same, placed in a whole document: walking a document whose node `i` is
/// a tab without the marker leaves that tab's subtree free of the launcher,
/// regardless of what the walk does to the sibling tabs.
pub proof fn lemma_direnv_scope_per_tab(d: DocV, i: int, flag: bool)
    requires
        0 <= i < d.nodes.len(),
        d.nodes[i].name == tab_chars(),
        !is_direnv_tab(d.nodes[i]),
        match d.nodes[i].children {
            None => true,
            Some(c) => dr_tab_free_nodes(c.nodes) && no_direnv_command_nodes(c.nodes),
        },
    ensures
        walk_doc(d, flag).0.nodes.len() == d.nodes.len(),
        match walk_doc(d, flag).0.nodes[i].children {
            None => true,
            Some(d1) => no_direnv_command_nodes(d1.nodes),
        },
{
    lemma_walk_nodes_index(d.nodes, flag);
    assert(walk_doc(d, flag).0.nodes[i] == walk_node(d.nodes[i], flag).0);
    lemma_plain_tab_not_wrapped(d.nodes[i], flag);
}

/// Direnv propagation scope, the positive half: under a `dr `-marked tab
/// whose subtree holds no further tab, every pane that carries a command
/// comes out of the walk running the launcher, at any nesting depth.
pub proof fn lemma_direnv_scope_positive(t: NodeV, flag: bool)
    requires
        t.name == tab_chars(),
        is_direnv_tab(t),
        match t.children {
            None => true,
            Some(d) => tab_free_doc(d),
        },
    ensures
        match walk_node(t, flag).0.children {
            None => true,
            Some(d1) => panes_wrapped_doc(d1),
        },
{
    match t.children {
        None => {},
        Some(d) => {
            lemma_scope_positive_nodes(d.nodes);
            assert(walk_node(t, flag) == walk_children(t, true));
        },
    }
}

} // verus!
