//! Graphviz text: statements, and how they are written down.

use vstd::prelude::*;
use vstd::string::{StrSliceExecFns, StringExecFns};

verus! {

/// An attribute of a statement.
pub struct Attr {
    pub key: &'static str,
    pub value: String,
}

/// One statement of a drawing.
pub enum Stmt {
    Node { id: String, attrs: Vec<Attr> },
    Edge { from: String, to: String, attrs: Vec<Attr> },
}

/// An attribute as text.
pub type AttrModel = (Seq<char>, Seq<char>);

/// A statement as text.
pub enum StmtModel {
    Node { id: Seq<char>, attrs: Seq<AttrModel> },
    Edge { from: Seq<char>, to: Seq<char>, attrs: Seq<AttrModel> },
}

/// The texts of attributes.
pub open spec fn attr_models(attrs: Seq<Attr>) -> Seq<AttrModel> {
    Seq::new(attrs.len(), |i: int| (attrs[i].key@, attrs[i].value@))
}

impl View for Stmt {
    type V = StmtModel;

    open spec fn view(&self) -> StmtModel {
        match *self {
            Stmt::Node { id, attrs } => StmtModel::Node { id: id@, attrs: attr_models(attrs@) },
            Stmt::Edge { from, to, attrs } => StmtModel::Edge {
                from: from@,
                to: to@,
                attrs: attr_models(attrs@),
            },
        }
    }
}

/// Adds an attribute.
pub fn push_attr(extra: &mut Vec<Attr>, key: &'static str, value: &str)
    ensures
        attr_models(final(extra)@) == attr_models(old(extra)@).push((key@, value@)),
{
    extra.push(Attr { key, value: value.to_owned() });
    assert(attr_models(extra@) =~= attr_models(old(extra)@).push((key@, value@)));
}

/// How a drawing looks as a whole.
#[derive(Clone, Copy, PartialEq, Eq, Structural, Debug)]
pub enum DotStyle {
    /// Graphviz's own look.
    Plain,
    /// Light text on a dark ground.
    Dark,
}

impl DotStyle {
    pub fn empty() -> (r: DotStyle)
        ensures
            r == DotStyle::Plain,
    {
        DotStyle::Plain
    }

    pub fn dark() -> (r: DotStyle)
        ensures
            r == DotStyle::Dark,
    {
        DotStyle::Dark
    }
}

/// The lines of a style.
pub open spec fn style_text(style: DotStyle) -> Seq<char> {
    match style {
        DotStyle::Plain => ""@,
        DotStyle::Dark => "  bgcolor=\"#1e1e1e\";\n  node [style=filled, color=\"#888888\", fontcolor=\"#dddddd\"];\n  edge [color=\"#cccccc\"];\n"@,
    }
}

/// One character inside quotes.
pub open spec fn escaped_char(c: char) -> Seq<char> {
    if c == '"' {
        "\\\""@
    } else if c == '\\' {
        "\\\\"@
    } else if c == '\n' {
        "\\n"@
    } else {
        seq![c]
    }
}

/// Text inside quotes: quotes and backslashes are escaped, line breaks spelled.
pub open spec fn escaped(s: Seq<char>) -> Seq<char>
    decreases s.len(),
{
    if s.len() == 0 {
        Seq::empty()
    } else {
        escaped(s.drop_last()) + escaped_char(s.last())
    }
}

/// Writes text inside quotes.
fn push_escaped(out: &mut String, s: &str)
    ensures
        final(out)@ == old(out)@ + escaped(s@),
{
    let ghost start = out@;
    let n = s.unicode_len();
    let mut i: usize = 0;
    assert(out@ =~= start + escaped(s@.take(0)));
    while i < n
        invariant
            i <= n,
            n == s@.len(),
            out@ == start + escaped(s@.take(i as int)),
        decreases n - i,
    {
        let c = s.get_char(i);
        let ghost before = s@.take(i as int);
        proof {
            assert(s@.take(i + 1).drop_last() =~= before);
            assert(s@.take(i + 1).last() == c);
        }
        if c == '"' {
            out.append("\\\"");
        } else if c == '\\' {
            out.append("\\\\");
        } else if c == '\n' {
            out.append("\\n");
        } else {
            let one = s.substring_char(i, i + 1);
            assert(one@ =~= seq![c]);
            out.append(one);
        }
        i += 1;
        assert(out@ =~= start + escaped(s@.take(i as int)));
    }
    assert(s@.take(i as int) =~= s@);
}

/// An attribute: the value of a label is quoted, any other stands as it is.
pub open spec fn attr_text(key: Seq<char>, value: Seq<char>) -> Seq<char> {
    if key == "label"@ {
        "label=\""@ + escaped(value) + "\""@
    } else {
        key + "="@ + value
    }
}

/// Attributes, each after a separator.
pub open spec fn more_attrs_text(extra: Seq<AttrModel>, n: int) -> Seq<char>
    decreases n,
{
    if n <= 0 {
        Seq::empty()
    } else {
        more_attrs_text(extra, n - 1) + (if n == 1 {
            ""@
        } else {
            ", "@
        }) + attr_text(extra[n - 1].0, extra[n - 1].1)
    }
}

/// Attributes in brackets, where there are any.
pub open spec fn attr_list_text(attrs: Seq<AttrModel>) -> Seq<char> {
    if attrs.len() == 0 {
        ""@
    } else {
        " ["@ + more_attrs_text(attrs, attrs.len() as int) + "]"@
    }
}

/// A statement on a line of its own.
pub open spec fn stmt_text(s: StmtModel) -> Seq<char> {
    match s {
        StmtModel::Node { id, attrs } => "  \""@ + escaped(id) + "\""@ + attr_list_text(attrs)
            + ";\n"@,
        StmtModel::Edge { from, to, attrs } => "  \""@ + escaped(from) + "\" -> \""@ + escaped(to)
            + "\""@ + attr_list_text(attrs) + ";\n"@,
    }
}

/// The attributes of a node: its label and shape come first.
pub open spec fn node_attrs(
    label: Seq<char>,
    shape: Seq<char>,
    extra: Seq<AttrModel>,
) -> Seq<AttrModel> {
    seq![("label"@, label), ("shape"@, shape)] + extra
}

/// The statement that declares a node.
pub open spec fn node_stmt(
    id: Seq<char>,
    label: Seq<char>,
    shape: Seq<char>,
    extra: Seq<AttrModel>,
) -> StmtModel {
    StmtModel::Node { id, attrs: node_attrs(label, shape, extra) }
}

/// The statement that draws an edge.
pub open spec fn edge_stmt(from: Seq<char>, to: Seq<char>, attrs: Seq<AttrModel>) -> StmtModel {
    StmtModel::Edge { from, to, attrs }
}

/// The first `n` statements.
pub open spec fn stmts_text(stmts: Seq<StmtModel>, n: int) -> Seq<char>
    decreases n,
{
    if n <= 0 {
        Seq::empty()
    } else {
        stmts_text(stmts, n - 1) + stmt_text(stmts[n - 1])
    }
}

/// A whole drawing.
pub open spec fn dot_text(
    name: Seq<char>,
    style: DotStyle,
    stmts: Seq<StmtModel>,
) -> Seq<char> {
    "digraph "@ + name + " {\n"@ + style_text(style) + stmts_text(stmts, stmts.len() as int)
        + "}\n"@
}

fn push_attr_text(out: &mut String, key: &str, value: &str)
    ensures
        final(out)@ == old(out)@ + attr_text(key@, value@),
{
    let ghost start = out@;
    if key.to_owned() == "label".to_owned() {
        out.append("label=\"");
        push_escaped(out, value);
        out.append("\"");
    } else {
        out.append(key);
        out.append("=");
        out.append(value);
    }
    assert(out@ =~= start + attr_text(key@, value@));
}

fn push_attr_list(out: &mut String, attrs: &Vec<Attr>)
    ensures
        final(out)@ == old(out)@ + attr_list_text(attr_models(attrs@)),
{
    let ghost all = attr_models(attrs@);
    let ghost begin = out@;
    if attrs.len() == 0 {
        proof {
            reveal_strlit("");
            assert(out@ =~= begin + attr_list_text(all));
        }
        return ;
    }
    out.append(" [");
    let ghost open = out@;
    let mut i: usize = 0;
    assert(out@ =~= open + more_attrs_text(all, 0));
    while i < attrs.len()
        invariant
            i <= attrs.len(),
            all == attr_models(attrs@),
            out@ == open + more_attrs_text(all, i as int),
        decreases attrs.len() - i,
    {
        if i > 0 {
            out.append(", ");
        }
        push_attr_text(out, attrs[i].key, attrs[i].value.as_str());
        proof {
            reveal_strlit("");
            assert(all[i as int] == (attrs@[i as int].key@, attrs@[i as int].value@));
            assert(out@ =~= open + more_attrs_text(all, i + 1));
        }
        i += 1;
    }
    out.append("]");
    assert(out@ =~= begin + attr_list_text(all));
}

fn push_stmt(out: &mut String, stmt: &Stmt)
    ensures
        final(out)@ == old(out)@ + stmt_text(stmt@),
{
    let ghost begin = out@;
    out.append("  \"");
    match stmt {
        Stmt::Node { id, attrs } => {
            push_escaped(out, id.as_str());
            out.append("\"");
            push_attr_list(out, attrs);
        },
        Stmt::Edge { from, to, attrs } => {
            push_escaped(out, from.as_str());
            out.append("\" -> \"");
            push_escaped(out, to.as_str());
            out.append("\"");
            push_attr_list(out, attrs);
        },
    }
    out.append(";\n");
    assert(out@ =~= begin + stmt_text(stmt@));
}

/// A drawing under way.
pub struct DotEmitter {
    name: String,
    style: DotStyle,
    stmts: Vec<Stmt>,
}

impl View for DotEmitter {
    type V = Seq<StmtModel>;

    closed spec fn view(&self) -> Seq<StmtModel> {
        Seq::new(self.stmts@.len(), |i: int| self.stmts@[i]@)
    }
}

impl DotEmitter {
    pub closed spec fn title(&self) -> Seq<char> {
        self.name@
    }

    pub closed spec fn look(&self) -> DotStyle {
        self.style
    }

    /// What stays while statements are added.
    pub open spec fn same_frame(&self, other: &DotEmitter) -> bool {
        self.title() == other.title() && self.look() == other.look()
    }

    /// A drawing without statements.
    pub fn new(name: &str, style: &DotStyle) -> (r: DotEmitter)
        ensures
            r@ == Seq::<StmtModel>::empty(),
            r.title() == name@,
            r.look() == *style,
    {
        let r = DotEmitter { name: name.to_owned(), style: *style, stmts: Vec::new() };
        assert(r@ =~= Seq::<StmtModel>::empty());
        r
    }

    fn add(&mut self, stmt: Stmt)
        ensures
            final(self)@ == old(self)@.push(stmt@),
            final(self).same_frame(old(self)),
    {
        self.stmts.push(stmt);
        assert(self@ =~= old(self)@.push(stmt@));
    }

    /// Declares a node.
    pub fn node(&mut self, id: &str, label: &str, shape: &'static str, extra: Vec<Attr>)
        ensures
            final(self)@ == old(self)@.push(
                node_stmt(id@, label@, shape@, attr_models(extra@)),
            ),
            final(self).same_frame(old(self)),
    {
        let mut attrs: Vec<Attr> = Vec::new();
        attrs.push(Attr { key: "label", value: label.to_owned() });
        attrs.push(Attr { key: "shape", value: shape.to_owned() });
        let mut rest = extra;
        let ghost e = extra@;
        let ghost first = attrs@;
        attrs.append(&mut rest);
        proof {
            assert(attrs@ =~= first + e);
            assert(attr_models(attrs@) =~= node_attrs(label@, shape@, attr_models(e)));
        }
        self.add(Stmt::Node { id: id.to_owned(), attrs });
    }

    /// Draws an edge.
    pub fn edge(&mut self, from: &str, to: &str, extra: Vec<Attr>)
        ensures
            final(self)@ == old(self)@.push(edge_stmt(from@, to@, attr_models(extra@))),
            final(self).same_frame(old(self)),
    {
        self.add(Stmt::Edge { from: from.to_owned(), to: to.to_owned(), attrs: extra });
    }

    /// The text of the drawing.
    pub fn finish(self) -> (r: String)
        ensures
            r@ == dot_text(self.title(), self.look(), self@),
    {
        let mut out = "digraph ".to_owned();
        out.append(self.name.as_str());
        out.append(" {\n");
        match self.style {
            DotStyle::Plain => {
                out.append("");
            },
            DotStyle::Dark => {
                out.append(
                    "  bgcolor=\"#1e1e1e\";\n  node [style=filled, color=\"#888888\", fontcolor=\"#dddddd\"];\n  edge [color=\"#cccccc\"];\n",
                );
            },
        }
        let ghost head = out@;
        let mut i: usize = 0;
        assert(out@ =~= head + stmts_text(self@, 0));
        while i < self.stmts.len()
            invariant
                i <= self.stmts.len(),
                out@ == head + stmts_text(self@, i as int),
            decreases self.stmts.len() - i,
        {
            push_stmt(&mut out, &self.stmts[i]);
            i += 1;
            assert(out@ =~= head + stmts_text(self@, i as int));
        }
        out.append("}\n");
        out
    }
}

} // verus!
