//! Presentation of the process tree: the flat list of rows that the
//! interactive view walks, the static ASCII tree, and connection labels.
use vstd::prelude::*;

use crate::proc_net::{conns_model, copy_conns, ConnModel, NetConn};
use crate::proc_tree::{ProcessInfo, TreeNode};
use crate::text::{append_chars, append_str, decimal, decimal_chars, digit_char, join, string_of};

verus! {

// ---------------------------------------------------------------------
// Flat rows
// ---------------------------------------------------------------------

/// One row of the flattened tree.
#[derive(Debug, Clone)]
pub struct FlatRow {
    pub depth: usize,
    pub pid: u32,
    pub name: String,
    pub user: String,
    pub cpu_tenths: u32,
    pub mem_tenths: u32,
    pub ports: Vec<NetConn>,
    pub has_children: bool,
    pub is_last_sibling: bool,
}

/// A flat row as plain values: depth, pid, name, user, CPU and memory
/// tenths, connections, whether it has children, whether it is the last of
/// its siblings.
pub type FlatModel = (usize, u32, Seq<char>, Seq<char>, u32, u32, Seq<ConnModel>, bool, bool);

impl FlatRow {
    /// The row as plain values.
    pub open spec fn model(&self) -> FlatModel {
        (
            self.depth,
            self.pid,
            self.name@,
            self.user@,
            self.cpu_tenths,
            self.mem_tenths,
            conns_model(self.ports@),
            self.has_children,
            self.is_last_sibling,
        )
    }
}

/// The models of a list of rows.
pub open spec fn rows_model(rows: Seq<FlatRow>) -> Seq<FlatModel> {
    rows.map_values(|r: FlatRow| r.model())
}

/// The row of node `n`.
pub open spec fn row_of_node(n: TreeNode, is_last: bool) -> FlatModel {
    (
        n.depth,
        n.info.pid,
        n.info.name@,
        n.info.user@,
        n.info.cpu_tenths,
        n.info.mem_tenths,
        conns_model(n.ports@),
        n.children@.len() > 0,
        is_last,
    )
}

/// The rows of the subtree of `n`, in preorder.
pub open spec fn flat_node(n: TreeNode, is_last: bool) -> Seq<FlatModel>
    decreases n, n.children@.len() + 1,
{
    seq![row_of_node(n, is_last)] + flat_children(n, 0)
}

/// The rows of the subtrees of the children of `n` from child `i` on.
pub open spec fn flat_children(n: TreeNode, i: int) -> Seq<FlatModel>
    decreases n, n.children@.len() - i,
{
    if i < 0 || i >= n.children@.len() {
        Seq::empty()
    } else {
        flat_node(n.children@[i], i == n.children@.len() - 1) + flat_children(n, i + 1)
    }
}

/// The rows of the trees of `forest` from tree `i` on.
pub open spec fn flat_forest(forest: Seq<TreeNode>, i: int) -> Seq<FlatModel>
    decreases forest.len() - i,
{
    if i < 0 || i >= forest.len() {
        Seq::empty()
    } else {
        flat_node(forest[i], i == forest.len() - 1) + flat_forest(forest, i + 1)
    }
}

fn row_for(node: &TreeNode, is_last: bool) -> (r: FlatRow)
    ensures
        r.model() == row_of_node(*node, is_last),
{
    FlatRow {
        depth: node.depth,
        pid: node.info.pid,
        name: node.info.name.clone(),
        user: node.info.user.clone(),
        cpu_tenths: node.info.cpu_tenths,
        mem_tenths: node.info.mem_tenths,
        ports: copy_conns(&node.ports),
        has_children: node.children.len() > 0,
        is_last_sibling: is_last,
    }
}

fn flatten_node(node: &TreeNode, rows: &mut Vec<FlatRow>, is_last: bool)
    ensures
        rows_model(final(rows)@) == rows_model(old(rows)@) + flat_node(*node, is_last),
    decreases node,
{
    let ghost start = rows_model(rows@);
    let row = row_for(node, is_last);
    rows.push(row);
    assert(rows_model(rows@) =~= start + seq![row_of_node(*node, is_last)]);
    let len = node.children.len();
    let mut i: usize = 0;
    while i < len
        invariant
            i <= len == node.children@.len(),
            rows_model(rows@) + flat_children(*node, i as int) == start + flat_node(*node, is_last),
        decreases len - i,
    {
        let ghost before = rows_model(rows@);
        flatten_node(&node.children[i], rows, i == len - 1);
        assert(rows_model(rows@) + flat_children(*node, i + 1) =~= before + flat_children(
            *node,
            i as int,
        ));
        i = i + 1;
    }
    assert(rows_model(rows@) =~= start + flat_node(*node, is_last));
}

/// Flattens the forest into its rows in preorder, for rendering.
pub fn flatten_tree(forest: &[TreeNode]) -> (rows: Vec<FlatRow>)
    ensures
        rows_model(rows@) == flat_forest(forest@, 0),
{
    let mut rows: Vec<FlatRow> = Vec::new();
    let len = forest.len();
    let mut i: usize = 0;
    assert(rows_model(rows@) =~= Seq::<FlatModel>::empty());
    while i < len
        invariant
            i <= len == forest@.len(),
            rows_model(rows@) + flat_forest(forest@, i as int) == flat_forest(forest@, 0),
        decreases len - i,
    {
        let ghost before = rows_model(rows@);
        flatten_node(&forest[i], &mut rows, i == len - 1);
        assert(rows_model(rows@) + flat_forest(forest@, i + 1) =~= before + flat_forest(
            forest@,
            i as int,
        ));
        i = i + 1;
    }
    assert(rows_model(rows@) =~= flat_forest(forest@, 0));
    rows
}

// ---------------------------------------------------------------------
// Connection labels
// ---------------------------------------------------------------------

/// The label of a connection in the ASCII tree.
pub open spec fn conn_label(c: ConnModel) -> Seq<char> {
    if c.5 == "LISTEN"@ {
        c.0 + ":"@ + decimal(c.2 as nat) + " LISTEN"@
    } else if c.3.len() > 0 && c.4 > 0 {
        c.0 + ":"@ + decimal(c.2 as nat) + "->"@ + c.3 + ":"@ + decimal(c.4 as nat)
    } else {
        c.0 + ":"@ + decimal(c.2 as nat)
    }
}

/// The short label of a connection in the interactive view.
pub open spec fn conn_label_short(c: ConnModel) -> Seq<char> {
    if c.5 == "LISTEN"@ {
        c.0 + ":"@ + decimal(c.2 as nat) + " LISTEN"@
    } else if c.3.len() > 0 && c.4 > 0 {
        ":"@ + decimal(c.2 as nat) + "->"@ + decimal(c.4 as nat)
    } else {
        ":"@ + decimal(c.2 as nat)
    }
}

/// The labels of the connections joined with `", "`.
pub open spec fn ports_text(conns: Seq<ConnModel>) -> Seq<char> {
    join(conns.map_values(|c: ConnModel| conn_label(c)), ", "@)
}

/// The short labels of the connections joined with `", "`.
pub open spec fn ports_text_short(conns: Seq<ConnModel>) -> Seq<char> {
    join(conns.map_values(|c: ConnModel| conn_label_short(c)), ", "@)
}

fn conn_label_exec(c: &NetConn, short: bool) -> (r: Vec<char>)
    ensures
        r@ == if short {
            conn_label_short(c.model())
        } else {
            conn_label(c.model())
        },
{
    let listen = chars_of_string(&c.state);
    let lit = crate::text::chars_of("LISTEN");
    let mut out: Vec<char> = Vec::new();
    if crate::text::chars_equal(&listen, &lit) {
        append_chars(&mut out, &chars_of_string(&c.proto));
        append_str(&mut out, ":");
        append_chars(&mut out, &decimal_chars(c.local_port as u64));
        append_str(&mut out, " LISTEN");
    } else if c.remote_addr.as_str().unicode_len() > 0 && c.remote_port > 0 {
        if !short {
            append_chars(&mut out, &chars_of_string(&c.proto));
        }
        append_str(&mut out, ":");
        append_chars(&mut out, &decimal_chars(c.local_port as u64));
        append_str(&mut out, "->");
        if !short {
            append_chars(&mut out, &chars_of_string(&c.remote_addr));
            append_str(&mut out, ":");
        }
        append_chars(&mut out, &decimal_chars(c.remote_port as u64));
    } else {
        if !short {
            append_chars(&mut out, &chars_of_string(&c.proto));
        }
        append_str(&mut out, ":");
        append_chars(&mut out, &decimal_chars(c.local_port as u64));
    }
    out
}

fn chars_of_string(s: &String) -> (r: Vec<char>)
    ensures
        r@ == s@,
{
    crate::text::chars_of(s.as_str())
}

fn format_conns(conns: &[NetConn], short: bool) -> (r: Vec<char>)
    ensures
        r@ == if short {
            ports_text_short(conns_model(conns@))
        } else {
            ports_text(conns_model(conns@))
        },
{
    let ghost labels = conns_model(conns@).map_values(
        |c: ConnModel|
            if short {
                conn_label_short(c)
            } else {
                conn_label(c)
            },
    );
    let mut out: Vec<char> = Vec::new();
    let mut i: usize = 0;
    while i < conns.len()
        invariant
            i <= conns.len(),
            labels.len() == conns.len(),
            labels == conns_model(conns@).map_values(
                |c: ConnModel|
                    if short {
                        conn_label_short(c)
                    } else {
                        conn_label(c)
                    },
            ),
            out@ == join(labels.take(i as int), ", "@),
        decreases conns.len() - i,
    {
        let label = conn_label_exec(&conns[i], short);
        assert(label@ == labels[i as int]);
        assert(labels.take(i + 1).drop_last() =~= labels.take(i as int));
        if i > 0 {
            append_str(&mut out, ", ");
        }
        append_chars(&mut out, &label);
        i = i + 1;
    }
    assert(labels.take(conns.len() as int) =~= labels);
    if short {
        assert(labels =~= conns_model(conns@).map_values(|c: ConnModel| conn_label_short(c)));
    } else {
        assert(labels =~= conns_model(conns@).map_values(|c: ConnModel| conn_label(c)));
    }
    out
}

/// The connections of a process as the ASCII tree labels them.
pub fn format_ports(conns: &[NetConn]) -> (r: String)
    ensures
        r@ == ports_text(conns_model(conns@)),
{
    string_of(&format_conns(conns, false))
}

/// The connections of a process as the interactive view labels them.
pub fn format_ports_short(conns: &[NetConn]) -> (r: String)
    ensures
        r@ == ports_text_short(conns_model(conns@)),
{
    string_of(&format_conns(conns, true))
}

// ---------------------------------------------------------------------
// The ASCII tree
// ---------------------------------------------------------------------

/// A percentage in tenths as `{:.1}` prints it.
pub open spec fn tenths_text(t: u32) -> Seq<char> {
    decimal((t / 10) as nat) + seq!['.', digit_char((t % 10) as nat)]
}

/// The indentation drawn for the ancestors' last-sibling flags.
pub open spec fn prefix_text(parts: Seq<bool>) -> Seq<char>
    decreases parts.len(),
{
    if parts.len() == 0 {
        Seq::empty()
    } else {
        prefix_text(parts.drop_last()) + if parts.last() {
            "    "@
        } else {
            "\u{2502}   "@
        }
    }
}

/// The branch drawn before a node: none at the top level.
pub open spec fn connector_text(parts: Seq<bool>, is_last: bool) -> Seq<char> {
    if parts.len() == 0 {
        Seq::empty()
    } else if is_last {
        "\u{2514}\u{2500}\u{2500} "@
    } else {
        "\u{251c}\u{2500}\u{2500} "@
    }
}

/// The port annotation of a line: none without connections.
pub open spec fn port_note(conns: Seq<ConnModel>) -> Seq<char> {
    let t = ports_text(conns);
    if t.len() == 0 {
        Seq::empty()
    } else {
        " ["@ + t + "]"@
    }
}

/// The line of node `n`.
pub open spec fn node_line(n: TreeNode, parts: Seq<bool>, is_last: bool) -> Seq<char> {
    prefix_text(parts) + connector_text(parts, is_last) + n.info.name@ + " (PID:"@ + decimal(
        n.info.pid as nat,
    ) + " user:"@ + n.info.user@ + " cpu:"@ + tenths_text(n.info.cpu_tenths) + "% mem:"@
        + tenths_text(n.info.mem_tenths) + "%)"@ + port_note(conns_model(n.ports@)) + "\n"@
}

/// The text of the subtree of `n`.
pub open spec fn render_node_text(n: TreeNode, parts: Seq<bool>, is_last: bool) -> Seq<char>
    decreases n, n.children@.len() + 1,
{
    node_line(n, parts, is_last) + render_children_text(n, parts.push(is_last), 0)
}

/// The text of the subtrees of the children of `n` from child `i` on.
pub open spec fn render_children_text(n: TreeNode, parts: Seq<bool>, i: int) -> Seq<char>
    decreases n, n.children@.len() - i,
{
    if i < 0 || i >= n.children@.len() {
        Seq::empty()
    } else {
        render_node_text(n.children@[i], parts, i == n.children@.len() - 1) + render_children_text(
            n,
            parts,
            i + 1,
        )
    }
}

/// The text of the trees of `forest` from tree `i` on.
pub open spec fn render_forest_text(forest: Seq<TreeNode>, i: int) -> Seq<char>
    decreases forest.len() - i,
{
    if i < 0 || i >= forest.len() {
        Seq::empty()
    } else {
        render_node_text(forest[i], Seq::empty(), i == forest.len() - 1) + render_forest_text(
            forest,
            i + 1,
        )
    }
}

fn tenths_chars(t: u32) -> (r: Vec<char>)
    ensures
        r@ == tenths_text(t),
{
    let mut r = decimal_chars((t / 10) as u64);
    r.push('.');
    let last = decimal_chars((t % 10) as u64);
    assert(last@ == decimal((t % 10) as nat));
    assert(last@ == seq![digit_char((t % 10) as nat)]);
    append_chars(&mut r, &last);
    r
}

fn prefix_chars(parts: &Vec<bool>) -> (r: Vec<char>)
    ensures
        r@ == prefix_text(parts@),
{
    let mut r: Vec<char> = Vec::new();
    let mut i: usize = 0;
    while i < parts.len()
        invariant
            i <= parts.len(),
            r@ == prefix_text(parts@.take(i as int)),
        decreases parts.len() - i,
    {
        assert(parts@.take(i + 1).drop_last() =~= parts@.take(i as int));
        if parts[i] {
            append_str(&mut r, "    ");
        } else {
            append_str(&mut r, "\u{2502}   ");
        }
        i = i + 1;
    }
    assert(parts@.take(parts.len() as int) =~= parts@);
    r
}

fn node_line_chars(node: &TreeNode, parts: &Vec<bool>, is_last: bool) -> (r: Vec<char>)
    ensures
        r@ == node_line(*node, parts@, is_last),
{
    let mut out = prefix_chars(parts);
    if parts.len() == 0 {
    } else if is_last {
        append_str(&mut out, "\u{2514}\u{2500}\u{2500} ");
    } else {
        append_str(&mut out, "\u{251c}\u{2500}\u{2500} ");
    }
    append_chars(&mut out, &chars_of_string(&node.info.name));
    append_str(&mut out, " (PID:");
    append_chars(&mut out, &decimal_chars(node.info.pid as u64));
    append_str(&mut out, " user:");
    append_chars(&mut out, &chars_of_string(&node.info.user));
    append_str(&mut out, " cpu:");
    append_chars(&mut out, &tenths_chars(node.info.cpu_tenths));
    append_str(&mut out, "% mem:");
    append_chars(&mut out, &tenths_chars(node.info.mem_tenths));
    append_str(&mut out, "%)");
    let ports = format_conns(&node.ports, false);
    if ports.len() > 0 {
        append_str(&mut out, " [");
        append_chars(&mut out, &ports);
        append_str(&mut out, "]");
    }
    append_str(&mut out, "\n");
    out
}

fn render_node(node: &TreeNode, out: &mut Vec<char>, parts: &Vec<bool>, is_last: bool)
    ensures
        final(out)@ == old(out)@ + render_node_text(*node, parts@, is_last),
    decreases node,
{
    let ghost start = out@;
    let line = node_line_chars(node, parts, is_last);
    append_chars(out, &line);
    let mut next: Vec<bool> = Vec::new();
    let mut j: usize = 0;
    while j < parts.len()
        invariant
            j <= parts.len(),
            next@ == parts@.take(j as int),
        decreases parts.len() - j,
    {
        next.push(parts[j]);
        j = j + 1;
        assert(next@ =~= parts@.take(j as int));
    }
    next.push(is_last);
    assert(next@ =~= parts@.push(is_last));
    let len = node.children.len();
    let mut i: usize = 0;
    while i < len
        invariant
            i <= len == node.children@.len(),
            next@ == parts@.push(is_last),
            out@ + render_children_text(*node, next@, i as int) == start + render_node_text(
                *node,
                parts@,
                is_last,
            ),
        decreases len - i,
    {
        let ghost before = out@;
        render_node(&node.children[i], out, &next, i == len - 1);
        assert(out@ + render_children_text(*node, next@, i + 1) =~= before + render_children_text(
            *node,
            next@,
            i as int,
        ));
        i = i + 1;
    }
    assert(out@ =~= start + render_node_text(*node, parts@, is_last));
}

/// Renders the static ASCII tree.
pub fn render_ascii(forest: &[TreeNode]) -> (r: String)
    ensures
        r@ == render_forest_text(forest@, 0),
{
    let mut out: Vec<char> = Vec::new();
    let parts: Vec<bool> = Vec::new();
    assert(parts@ =~= Seq::<bool>::empty());
    let len = forest.len();
    let mut i: usize = 0;
    while i < len
        invariant
            i <= len == forest@.len(),
            parts@ == Seq::<bool>::empty(),
            out@ + render_forest_text(forest@, i as int) == render_forest_text(forest@, 0),
        decreases len - i,
    {
        let ghost before = out@;
        render_node(&forest[i], &mut out, &parts, i == len - 1);
        assert(out@ + render_forest_text(forest@, i + 1) =~= before + render_forest_text(
            forest@,
            i as int,
        ));
        i = i + 1;
    }
    assert(out@ =~= render_forest_text(forest@, 0));
    string_of(&out)
}

/// The indentation column drawn for one ancestor: blank when it is the last
/// of its siblings, a bar otherwise.
pub open spec fn column_for(is_last: bool) -> Seq<char> {
    if is_last {
        seq![' ', ' ', ' ', ' ']
    } else {
        seq!['\u{2502}', ' ', ' ', ' ']
    }
}

/// The indentation has four characters per ancestor, and the `k`-th group
/// of four depends only on the `k`-th ancestor's flag: four spaces when
/// that ancestor is the last of its siblings, a bar and three spaces
/// otherwise.
pub proof fn law_prefix_columns(parts: Seq<bool>)
    ensures
        prefix_text(parts).len() == 4 * parts.len(),
        forall|k: int|
            0 <= k < parts.len() ==> prefix_text(parts).subrange(4 * k, 4 * k + 4) == column_for(
                #[trigger] parts[k],
            ),
    decreases parts.len(),
{
    reveal_strlit("    ");
    reveal_strlit("\u{2502}   ");
    if parts.len() > 0 {
        let init = parts.drop_last();
        law_prefix_columns(init);
        let p = prefix_text(parts);
        let q = prefix_text(init);
        let last = if parts.last() {
            "    "@
        } else {
            "\u{2502}   "@
        };
        assert(p == q + last);
        assert(last =~= column_for(parts.last()));
        assert forall|k: int| 0 <= k < parts.len() implies p.subrange(4 * k, 4 * k + 4) == column_for(
            #[trigger] parts[k],
        ) by {
            if k < init.len() {
                assert(init[k] == parts[k]);
                assert(p.subrange(4 * k, 4 * k + 4) =~= q.subrange(4 * k, 4 * k + 4));
            } else {
                assert(p.subrange(4 * k, 4 * k + 4) =~= last);
            }
        }
    }
}

} // verus!
