//! Jupyter notebooks: their cells become one Markdown text.
use vstd::prelude::*;
use serde_json::Value;
use crate::json;
use crate::json::{JsonNode, JsonV};
use crate::rows;
use crate::text;

verus! {

/// A cell of a notebook.
#[derive(Debug)]
pub struct Cell {
    pub kind: Option<String>,
    pub source: String,
}

/// What a [`Cell`] holds.
#[verifier::ext_equal]
pub struct CellV {
    pub kind: Option<Seq<char>>,
    pub source: Seq<char>,
}

impl View for Cell {
    type V = CellV;

    open spec fn view(&self) -> CellV {
        CellV { kind: text::opt_text(self.kind), source: self.source@ }
    }
}

/// The pointer to a part of a cell.
pub open spec fn cell_pointer(i: nat, part: Seq<char>) -> Seq<char> {
    "/cells/"@ + text::decimal(i) + "/"@ + part
}

/// The strings among the first `n` elements of an array, one after the other.
pub open spec fn joined_lines(nodes: Map<Seq<char>, JsonV>, at: Seq<char>, n: nat) -> Seq<char>
    decreases n,
{
    if n == 0 {
        Seq::empty()
    } else {
        let before = joined_lines(nodes, at, (n - 1) as nat);
        match json::node_at(nodes, at + "/"@ + text::decimal((n - 1) as nat)) {
            JsonV::Text(s) => before + s,
            _ => before,
        }
    }
}

/// The source of a cell: a string, or an array of strings.
pub open spec fn source_at(nodes: Map<Seq<char>, JsonV>, at: Seq<char>) -> Seq<char> {
    match json::node_at(nodes, at) {
        JsonV::Text(s) => s,
        JsonV::Array(n) => joined_lines(nodes, at, n),
        _ => Seq::empty(),
    }
}

/// A cell of a document.
pub open spec fn cell_at(nodes: Map<Seq<char>, JsonV>, i: nat) -> CellV {
    CellV {
        kind: match json::node_at(nodes, cell_pointer(i, "cell_type"@)) {
            JsonV::Text(s) => Some(s),
            _ => None,
        },
        source: source_at(nodes, cell_pointer(i, "source"@)),
    }
}

/// The cells of a document; a document without an array of cells has none.
pub open spec fn cells_of(nodes: Map<Seq<char>, JsonV>) -> Seq<CellV> {
    match json::node_at(nodes, "/cells"@) {
        JsonV::Array(n) => Seq::new(n, |i: int| cell_at(nodes, i as nat)),
        _ => Seq::empty(),
    }
}

/// A cell as Markdown: code is fenced; blank cells and cells of another kind leave nothing.
pub open spec fn cell_markdown(c: CellV) -> Seq<char> {
    if text::trim(c.source).len() == 0 {
        Seq::empty()
    } else if c.kind == Some("markdown"@) {
        c.source + "\n"@
    } else if c.kind == Some("code"@) {
        "```\n"@ + c.source + "\n```\n"@
    } else {
        Seq::empty()
    }
}

/// A notebook as one Markdown text.
pub open spec fn cells_markdown(cells: Seq<CellV>) -> Seq<char>
    decreases cells.len(),
{
    if cells.len() == 0 {
        Seq::empty()
    } else {
        cells_markdown(cells.drop_last()) + cell_markdown(cells.last())
    }
}

fn pointer_to(i: usize, part: &str) -> (r: String)
    ensures
        r@ == cell_pointer(i as nat, part@),
{
    let mut p = "/cells/".to_owned();
    p.append(text::decimal_of(i as u64).as_str());
    p.append("/");
    p.append(part);
    p
}

fn read_source(v: &Value, at: &str) -> (r: String)
    ensures
        r@ == source_at(json::json_nodes(*v), at@),
{
    match json::lookup(v, at) {
        JsonNode::Text(s) => s,
        JsonNode::Array(n) => {
            let mut out = String::new();
            assert(out@ =~= joined_lines(json::json_nodes(*v), at@, 0));
            for j in 0..n
                invariant
                    out@ == joined_lines(json::json_nodes(*v), at@, j as nat),
            {
                let mut p = at.to_owned();
                p.append("/");
                p.append(text::decimal_of(j as u64).as_str());
                if let JsonNode::Text(s) = json::lookup(v, p.as_str()) {
                    out.append(s.as_str());
                }
            }
            out
        },
        _ => String::new(),
    }
}

/// The cells of a document.
pub fn read_cells(v: &Value) -> (r: Vec<Cell>)
    ensures
        rows::vals(r@) == cells_of(json::json_nodes(*v)),
{
    let mut out: Vec<Cell> = Vec::new();
    if let JsonNode::Array(n) = json::lookup(v, "/cells") {
        let ghost all = cells_of(json::json_nodes(*v));
        for i in 0..n
            invariant
                all == cells_of(json::json_nodes(*v)),
                all.len() == n,
                forall|k: int| 0 <= k < n ==> all[k] == cell_at(json::json_nodes(*v), k as nat),
                out@.len() == i,
                rows::vals(out@) =~= all.take(i as int),
        {
            let kind = match json::lookup(v, pointer_to(i, "cell_type").as_str()) {
                JsonNode::Text(s) => Some(s),
                _ => None,
            };
            let source = read_source(v, pointer_to(i, "source").as_str());
            out.push(Cell { kind, source });
            assert(out@[i as int]@ == all[i as int]);
        }
        assert(all.take(n as int) =~= all);
    }
    assert(rows::vals(out@) =~= cells_of(json::json_nodes(*v)));
    out
}

fn is_kind(c: &Cell, kind: &str) -> (r: bool)
    ensures
        r == (c@.kind == Some(kind@)),
{
    match &c.kind {
        Some(k) => text::same_text(k.as_str(), kind),
        None => false,
    }
}

/// Cells as one Markdown text.
pub fn markdown_of(cells: &Vec<Cell>) -> (r: String)
    ensures
        r@ == cells_markdown(rows::vals(cells@)),
{
    let mut out = String::new();
    let ghost all = rows::vals(cells@);
    assert(out@ =~= cells_markdown(all.take(0)));
    for i in 0..cells.len()
        invariant
            all == rows::vals(cells@),
            out@ == cells_markdown(all.take(i as int)),
    {
        let c = &cells[i];
        proof {
            assert(all.take(i + 1).drop_last() =~= all.take(i as int));
            assert(all.take(i + 1).last() == c@);
        }
        let ghost before = out@;
        if text::trim_str(c.source.as_str()).unicode_len() > 0 {
            if is_kind(c, "markdown") {
                out.append(c.source.as_str());
                out.append("\n");
                assert(out@ =~= before + cell_markdown(c@));
            } else if is_kind(c, "code") {
                out.append("```\n");
                out.append(c.source.as_str());
                out.append("\n```\n");
                assert(out@ =~= before + cell_markdown(c@));
            }
        }
        assert(out@ =~= before + cell_markdown(c@));
    }
    assert(all.take(all.len() as int) =~= all);
    out
}

} // verus!
